//! The world: every loaded chunk, the three content registries, and the
//! per-frame orchestration of visibility, migration, collision and ticking.
//!
//! Chunks live in a sparse collection keyed by their unique chunk
//! coordinate.  Each frame recomputes the square window of visible chunk
//! coordinates around the camera, moves objects whose position has crossed a
//! chunk boundary into the chunk that now contains them, resolves pairwise
//! collisions among the objects of visible chunks, and ticks every visible
//! chunk.

use vstd::prelude::*;

verus! {

use crate::{CHUNK_COORD_LIMIT, POS_LIMIT, RENDER_DISTANCE, WorldError};
use crate::biome::{BiomeRegistry, BiomeView};
use crate::chunk::{chunk_view_wf, spec_chunk_visible, spec_deser_chunk, spec_enc_chunk, Chunk, ChunkView};
use crate::draw::{spec_batch_add_all, DrawBatch};
use crate::codec::{enc_world_meta, parse_world_meta, spec_enc_world_rec, spec_parse_world_rec};
use crate::geom::{spec_chunk_coord, Vec2i};
use crate::object::{
    can_step,
    object_pos_safe,
    object_view_wf,
    spec_approaching,
    spec_collision_response,
    spec_will_collide,
    Object,
    ObjectRegistry,
    ObjectView,
};
use vstd::pervasive::VecAdditionalExecFns;
use crate::tile::{SerializableTile, Tile, TileRegistry, TileView};

/// Serializable metadata of a world: its name.
pub struct WorldData {
    pub name: String,
}

impl View for WorldData {
    type V = Seq<char>;

    open spec fn view(&self) -> Seq<char> {
        self.name@
    }
}

/// Mathematical content of a [`World`]: its chunks, registries, visible
/// window and name.
#[verifier::ext_equal]
pub ghost struct WorldView {
    pub chunks: Seq<ChunkView>,
    pub tile_reg: Seq<TileView>,
    pub object_reg: Seq<ObjectView>,
    pub biome_reg: Seq<BiomeView>,
    pub visible: Seq<Vec2i>,
    pub name: Seq<char>,
}

/// The game world.
pub struct World {
    /// Every loaded chunk; coordinates are unique.
    pub chunks: Vec<Chunk>,
    /// Registry of tile prototypes.
    pub tile_registry: TileRegistry,
    /// Registry of object prototypes.
    pub object_registry: ObjectRegistry,
    /// Registry of biomes, in registration order.
    pub biome_registry: BiomeRegistry,
    /// The chunk coordinates visible this frame; transient.
    pub visible_chunks: Vec<Vec2i>,
    /// Name of the world, used by persistence.
    pub world_name: String,
}

impl View for World {
    type V = WorldView;

    open spec fn view(&self) -> WorldView {
        WorldView {
            chunks: Seq::new(self.chunks@.len(), |i: int| self.chunks@[i]@),
            tile_reg: self.tile_registry@,
            object_reg: self.object_registry@,
            biome_reg: self.biome_registry@,
            visible: self.visible_chunks@,
            name: self.world_name@,
        }
    }
}

/// True when some chunk in `chunks` sits at `coord`.
pub open spec fn has_chunk_at(chunks: Seq<ChunkView>, coord: Vec2i) -> bool {
    exists|i: int| 0 <= i < chunks.len() && chunks[i].pos == coord
}

/// The index of the chunk at `coord`, when coordinates are unique.
pub open spec fn chunk_index_of(chunks: Seq<ChunkView>, coord: Vec2i) -> int {
    choose|i: int| 0 <= i < chunks.len() && chunks[i].pos == coord
}

/// With unique coordinates, any chunk at `coord` is the one selected.
pub proof fn lemma_chunk_index_unique(chunks: Seq<ChunkView>, coord: Vec2i, i: int)
    requires
        forall|a: int, b: int| 0 <= a < b < chunks.len() ==> chunks[a].pos != chunks[b].pos,
        0 <= i < chunks.len(),
        chunks[i].pos == coord,
    ensures
        chunk_index_of(chunks, coord) == i,
{
    let j = chunk_index_of(chunks, coord);
    if i < j {
        assert(chunks[i].pos != chunks[j].pos);
    } else if j < i {
        assert(chunks[j].pos != chunks[i].pos);
    }
}

/// The square window of chunk coordinates kept visible around the chunk
/// coordinate `c`: every coordinate within the render distance, rows first.
pub open spec fn spec_window(c: Vec2i) -> Seq<Vec2i> {
    let w = 2 * RENDER_DISTANCE as int + 1;
    Seq::new(
        (w * w) as nat,
        |i: int|
            Vec2i {
                x: (c.x - RENDER_DISTANCE + i % w) as i64,
                y: (c.y - RENDER_DISTANCE + i / w) as i64,
            },
    )
}

/// The window's coordinates are pairwise distinct.
pub proof fn lemma_window_distinct(c: Vec2i)
    requires
        -POS_LIMIT <= c.x <= POS_LIMIT,
        -POS_LIMIT <= c.y <= POS_LIMIT,
    ensures
        forall|k1: int, k2: int|
            0 <= k1 < k2 < spec_window(c).len() ==> spec_window(c)[k1] != spec_window(c)[k2],
{
    let w = 2 * RENDER_DISTANCE as int + 1;
    assert forall|k1: int, k2: int|
        0 <= k1 < k2 < spec_window(c).len() implies spec_window(c)[k1] != spec_window(c)[k2] by {
        if spec_window(c)[k1] == spec_window(c)[k2] {
            vstd::arithmetic::div_mod::lemma_mod_bound(k1, w);
            vstd::arithmetic::div_mod::lemma_mod_bound(k2, w);
            vstd::arithmetic::div_mod::lemma_div_pos_is_pos(k1, w);
            vstd::arithmetic::div_mod::lemma_div_pos_is_pos(k2, w);
            vstd::arithmetic::div_mod::lemma_div_is_ordered(k1, w * w - 1, w);
            vstd::arithmetic::div_mod::lemma_div_is_ordered(k2, w * w - 1, w);
            assert((w * w - 1) / w == w - 1) by (nonlinear_arith)
                requires
                    w == 5,
            ;
            assert(k1 % w == k2 % w);
            assert(k1 / w == k2 / w);
            vstd::arithmetic::div_mod::lemma_fundamental_div_mod(k1, w);
            vstd::arithmetic::div_mod::lemma_fundamental_div_mod(k2, w);
            assert(k1 == k2);
        }
    }
}

/// What loading the chunk files yields: each file's chunk in file order,
/// skipping files that fail to reconstruct, first chunk per coordinate wins.
pub open spec fn spec_load_chunks(
    treg: Seq<TileView>,
    oreg: Seq<ObjectView>,
    files: Seq<Seq<u8>>,
) -> Seq<ChunkView>
    decreases files.len(),
{
    if files.len() == 0 {
        Seq::empty()
    } else {
        let prev = spec_load_chunks(treg, oreg, files.drop_last());
        match spec_deser_chunk(treg, oreg, files.last()) {
            Err(_) => prev,
            Ok(cv) => if has_chunk_at(prev, cv.pos) {
                prev
            } else {
                prev.push(cv)
            },
        }
    }
}

impl World {
    /// Well-formedness: every chunk in bounds, chunk coordinates unique,
    /// registries well-formed, and the visible window free of repeats.
    pub open spec fn wf(&self) -> bool {
        &&& forall|i: int| 0 <= i < self@.chunks.len() ==> chunk_view_wf(#[trigger] self@.chunks[i])
        &&& forall|a: int, b: int|
            0 <= a < b < self@.chunks.len() ==> self@.chunks[a].pos != self@.chunks[b].pos
        &&& self.tile_registry.wf()
        &&& self.object_registry.wf()
        &&& forall|a: int, b: int|
            0 <= a < b < self@.visible.len() ==> self@.visible[a] != self@.visible[b]
    }

    /// Creates an empty world with the given name and registries.
    pub fn new(
        world_name: &str,
        tile_registry: TileRegistry,
        object_registry: ObjectRegistry,
        biome_registry: BiomeRegistry,
    ) -> (r: World)
        requires
            tile_registry.wf(),
            object_registry.wf(),
        ensures
            r.wf(),
            r@.chunks =~= Seq::<ChunkView>::empty(),
            r@.visible =~= Seq::<Vec2i>::empty(),
            r@.name == world_name@,
            r@.tile_reg == tile_registry@,
            r@.object_reg == object_registry@,
            r@.biome_reg == biome_registry@,
    {
        World {
            chunks: Vec::new(),
            tile_registry,
            object_registry,
            biome_registry,
            visible_chunks: Vec::new(),
            world_name: crate::text::str_to_owned(world_name),
        }
    }

    /// The index of the chunk at `coord`, when one is loaded.
    pub fn find_chunk(&self, coord: Vec2i) -> (r: Option<usize>)
        ensures
            (match r {
                Some(i) => i < self@.chunks.len() && self@.chunks[i as int].pos == coord,
                None => !has_chunk_at(self@.chunks, coord),
            }),
    {
        let n = self.chunks.len();
        let mut i: usize = 0;
        while i < n
            invariant
                n == self@.chunks.len(),
                i <= n,
                forall|k: int| 0 <= k < i ==> self@.chunks[k].pos != coord,
            decreases n - i,
        {
            proof {
                assert(self@.chunks[i as int] == self.chunks@[i as int]@);
            }
            if self.chunks[i].pos == coord {
                return Some(i);
            }
            i = i + 1;
        }
        None
    }

    /// Adds `chunk` under its chunk coordinate; a no-op when a chunk with
    /// that coordinate is already loaded (the first chunk wins).
    pub fn add_chunk(&mut self, chunk: Chunk)
        requires
            old(self).wf(),
            chunk.wf(),
        ensures
            final(self).wf(),
            (if has_chunk_at(old(self)@.chunks, chunk@.pos) {
                final(self)@ == old(self)@
            } else {
                final(self)@ == (WorldView {
                    chunks: old(self)@.chunks.push(chunk@),
                    ..old(self)@
                })
            }),
    {
        let found = self.find_chunk(chunk.pos);
        match found {
            Some(_) => {
                proof {
                    assert(has_chunk_at(self@.chunks, chunk@.pos));
                    assert(self@ =~= old(self)@);
                }
            },
            None => {
                self.chunks.push(chunk);
                proof {
                    assert(self@.chunks =~= old(self)@.chunks.push(chunk@));
                    assert(self@ =~= (WorldView {
                        chunks: old(self)@.chunks.push(chunk@),
                        ..old(self)@
                    }));
                    let nc = self@.chunks.len();
                    assert forall|a: int, b: int|
                        0 <= a < b < nc implies self@.chunks[a].pos != self@.chunks[b].pos by {
                        if b < nc - 1 {
                            assert(old(self)@.chunks[a].pos != old(self)@.chunks[b].pos);
                        } else {
                            assert(!has_chunk_at(old(self)@.chunks, chunk@.pos));
                            assert(self@.chunks[a] == old(self)@.chunks[a]);
                        }
                    }
                }
            },
        }
    }

    /// Recomputes the visible window: the square of chunk coordinates
    /// within the render distance of `camera_chunk`.
    fn update_visible_chunks(&mut self, camera_chunk: Vec2i)
        requires
            -POS_LIMIT <= camera_chunk.x <= POS_LIMIT,
            -POS_LIMIT <= camera_chunk.y <= POS_LIMIT,
        ensures
            final(self)@ == (WorldView { visible: spec_window(camera_chunk), ..old(self)@ }),
            old(self).wf() ==> final(self).wf(),
    {
        self.visible_chunks = Vec::new();
        let w: usize = (2 * RENDER_DISTANCE + 1) as usize;
        assert(w == 5);
        let total = w * w;
        let mut i: usize = 0;
        while i < total
            invariant
                w == 2 * RENDER_DISTANCE + 1,
                total == w * w,
                i <= total,
                -POS_LIMIT <= camera_chunk.x <= POS_LIMIT,
                -POS_LIMIT <= camera_chunk.y <= POS_LIMIT,
                self.chunks@ == old(self).chunks@,
                self.tile_registry == old(self).tile_registry,
                self.object_registry == old(self).object_registry,
                self.biome_registry == old(self).biome_registry,
                self.world_name == old(self).world_name,
                self.visible_chunks@ =~= spec_window(camera_chunk).take(i as int),
            decreases total - i,
        {
            let dx = (i % w) as i64;
            let dy = (i / w) as i64;
            proof {
                vstd::arithmetic::div_mod::lemma_fundamental_div_mod(i as int, w as int);
                vstd::arithmetic::div_mod::lemma_mod_bound(i as int, w as int);
                vstd::arithmetic::div_mod::lemma_div_pos_is_pos(i as int, w as int);
                assert((i as int) / (w as int) < w as int) by (nonlinear_arith)
                    requires
                        (i as int) < (w as int) * (w as int),
                        w as int > 0,
                        i as int == (w as int) * ((i as int) / (w as int)) + (i as int) % (w as int),
                        0 <= (i as int) % (w as int) < w as int,
                ;
            }
            let coord = Vec2i {
                x: camera_chunk.x - RENDER_DISTANCE + dx,
                y: camera_chunk.y - RENDER_DISTANCE + dy,
            };
            self.visible_chunks.push(coord);
            proof {
                assert(spec_window(camera_chunk)[i as int] == coord);
                assert(self.visible_chunks@ =~= spec_window(camera_chunk).take(i as int + 1));
            }
            i = i + 1;
        }
        proof {
            assert(spec_window(camera_chunk).take(total as int) =~= spec_window(camera_chunk));
            assert(self@ =~= (WorldView { visible: spec_window(camera_chunk), ..old(self)@ }));
            lemma_window_distinct(camera_chunk);
        }
    }

    /// Serializes the world for persistence: the metadata record, and one
    /// record per loaded chunk alongside its coordinate.
    pub fn save_world(&self) -> (r: (Vec<u8>, Vec<(Vec2i, Vec<u8>)>))
        requires
            self.wf(),
        ensures
            r.0@ == spec_enc_world_rec(self@.name),
            r.1@.len() == self@.chunks.len(),
            forall|k: int|
                0 <= k < r.1@.len() ==> (#[trigger] r.1@[k]).0 == self@.chunks[k].pos && r.1@[k].1@
                    == spec_enc_chunk(self@.chunks[k]),
    {
        let meta = enc_world_meta(self.world_name.as_str());
        let mut files: Vec<(Vec2i, Vec<u8>)> = Vec::new();
        let n = self.chunks.len();
        let mut i: usize = 0;
        while i < n
            invariant
                self.wf(),
                n == self@.chunks.len(),
                i <= n,
                files@.len() == i,
                forall|k: int|
                    0 <= k < i ==> (#[trigger] files@[k]).0 == self@.chunks[k].pos && files@[k].1@
                        == spec_enc_chunk(self@.chunks[k]),
            decreases n - i,
        {
            proof {
                assert(self@.chunks[i as int] == self.chunks@[i as int]@);
            }
            let bytes = self.chunks[i].serialize();
            let coord = self.chunks[i].pos;
            files.push((coord, bytes));
            i = i + 1;
        }
        (meta, files)
    }

    /// Rebuilds a world from its persisted records.  A metadata record that
    /// does not parse fails the whole load; a chunk record that fails to
    /// reconstruct is skipped, and the first chunk per coordinate wins.
    pub fn load_world(
        meta: &[u8],
        chunk_files: &Vec<Vec<u8>>,
        tile_registry: TileRegistry,
        object_registry: ObjectRegistry,
        biome_registry: BiomeRegistry,
    ) -> (r: Result<World, WorldError>)
        requires
            tile_registry.wf(),
            object_registry.wf(),
        ensures
            (match spec_parse_world_rec(meta@) {
                Option::None => r matches Err(e) && e == WorldError::MalformedRecord,
                Option::Some(name) => r matches Ok(w) && w.wf() && w@.name == name && w@.chunks
                    == spec_load_chunks(tile_registry@, object_registry@, chunk_files.deep_view())
                    && w@.tile_reg == tile_registry@ && w@.object_reg == object_registry@
                    && w@.biome_reg == biome_registry@ && w@.visible =~= Seq::<Vec2i>::empty(),
            }),
    {
        let name = match parse_world_meta(meta) {
            None => {
                return Err(WorldError::MalformedRecord);
            },
            Some(s) => s,
        };
        let mut world = World::new(
            name.as_str(),
            tile_registry,
            object_registry,
            biome_registry,
        );
        let n = chunk_files.len();
        let mut i: usize = 0;
        while i < n
            invariant
                n == chunk_files@.len(),
                i <= n,
                world.wf(),
                world@.chunks == spec_load_chunks(
                    world@.tile_reg,
                    world@.object_reg,
                    chunk_files.deep_view().take(i as int),
                ),
                world@.tile_reg == world.tile_registry@,
                world@.object_reg == world.object_registry@,
                world@.name == name@,
                world@.visible =~= Seq::<Vec2i>::empty(),
                world@.tile_reg == tile_registry@,
                world@.object_reg == object_registry@,
                world@.biome_reg == biome_registry@,
            decreases n - i,
        {
            let ghost files = chunk_files.deep_view();
            proof {
                assert(files.take(i as int + 1).drop_last() =~= files.take(i as int));
                assert(files.take(i as int + 1).last() =~= files[i as int]);
                assert(chunk_files@[i as int]@ =~= files[i as int]);
            }
            let parsed = Chunk::deserialize(
                chunk_files[i].as_slice(),
                &world.tile_registry,
                &world.object_registry,
            );
            match parsed {
                Ok(chunk) => {
                    world.add_chunk(chunk);
                },
                Err(_) => {},
            }
            i = i + 1;
        }
        proof {
            assert(chunk_files.deep_view().take(n as int) =~= chunk_files.deep_view());
        }
        Ok(world)
    }

    /// Moves every object of a visible chunk whose position now maps to a
    /// different chunk coordinate into the chunk that contains it; an
    /// object whose destination chunk is not loaded is dropped.
    fn migrate_objects(&mut self)
        requires
            old(self).wf(),
        ensures
            final(self).wf(),
            final(self)@.chunks.len() == old(self)@.chunks.len(),
            forall|i: int|
                0 <= i < old(self)@.chunks.len() ==> final(self)@.chunks[i] == spec_migrate_chunk(
                    old(self)@.chunks[i],
                    old(self)@.visible,
                    pending_of(old(self)@.chunks, old(self)@.visible),
                ),
            final(self)@.visible == old(self)@.visible,
            final(self)@.tile_reg == old(self)@.tile_reg,
            final(self)@.object_reg == old(self)@.object_reg,
            final(self)@.biome_reg == old(self)@.biome_reg,
            final(self)@.name == old(self)@.name,
    {
        let ghost w0 = self@;
        let nv = self.visible_chunks.len();
        let mut pending: Vec<Object> = Vec::new();
        let mut k: usize = 0;
        while k < nv
            invariant
                old(self).wf(),
                w0 == old(self)@,
                nv == w0.visible.len(),
                k <= nv,
                self.visible_chunks@ == w0.visible,
                self.tile_registry == old(self).tile_registry,
                self.object_registry == old(self).object_registry,
                self.biome_registry == old(self).biome_registry,
                self.world_name == old(self).world_name,
                self@.chunks.len() == w0.chunks.len(),
                Seq::new(pending@.len(), |q: int| pending@[q]@) == pending_of(
                    w0.chunks,
                    w0.visible.take(k as int),
                ),
                forall|i: int|
                    0 <= i < w0.chunks.len() ==> #[trigger] self@.chunks[i] == (
                    if w0.visible.take(k as int).contains(w0.chunks[i].pos) {
                        ChunkView {
                            objects: objects_bound_for(w0.chunks[i].objects, w0.chunks[i].pos),
                            ..w0.chunks[i]
                        }
                    } else {
                        w0.chunks[i]
                    }),
            decreases nv - k,
        {
            let coord = self.visible_chunks[k];
            let ghost vk = w0.visible.take(k as int);
            let ghost vk1 = w0.visible.take(k as int + 1);
            proof {
                assert(vk1.drop_last() =~= vk);
                assert(vk1.last() == coord);
                assert forall|pos: Vec2i|
                    pos != coord implies (vk1.contains(pos) == vk.contains(pos)) by {
                    if vk1.contains(pos) {
                        let j = choose|j: int| 0 <= j < vk1.len() && vk1[j] == pos;
                        assert(j < vk1.len() - 1);
                        assert(vk[j] == pos);
                    } else {
                        if vk.contains(pos) {
                            let j = choose|j: int| 0 <= j < vk.len() && vk[j] == pos;
                            assert(vk1[j] == pos);
                        }
                    }
                }
            }
            let found = self.find_chunk(coord);
            match found {
                None => {
                    proof {
                        assert forall|i: int|
                            0 <= i < w0.chunks.len() implies w0.chunks[i].pos != coord by {
                            if w0.chunks[i].pos == coord {
                                assert(self@.chunks[i].pos == coord);
                                assert(has_chunk_at(self@.chunks, coord));
                            }
                        }
                        assert(!has_chunk_at(w0.chunks, coord));
                        assert(pending_of(w0.chunks, vk1) == pending_of(w0.chunks, vk));
                        assert forall|i: int|
                            0 <= i < w0.chunks.len() implies #[trigger] self@.chunks[i] == (
                        if vk1.contains(w0.chunks[i].pos) {
                            ChunkView {
                                objects: objects_bound_for(w0.chunks[i].objects, w0.chunks[i].pos),
                                ..w0.chunks[i]
                            }
                        } else {
                            w0.chunks[i]
                        }) by {
                            assert(w0.chunks[i].pos != coord);
                        }
                    }
                },
                Some(ci) => {
                    let ghost ci_int = ci as int;
                    proof {
                        assert(self@.chunks[ci_int].pos == coord);
                        assert(!vk.contains(coord)) by {
                            if vk.contains(coord) {
                                let j = choose|j: int| 0 <= j < vk.len() && vk[j] == coord;
                                assert(w0.visible[j] == w0.visible[k as int]);
                            }
                        };
                        assert(self@.chunks[ci_int] == w0.chunks[ci_int]);
                        assert(w0.chunks[ci_int].pos == coord);
                        lemma_chunk_index_unique(w0.chunks, coord, ci_int);
                        assert(chunk_view_wf(w0.chunks[ci_int]));
                    }
                    let ghost chunks_before = self@.chunks;
                    let mut c = self.chunks.remove(ci);
                    let ghost cv0 = w0.chunks[ci_int];
                    let mut tmp: Vec<Object> = Vec::new();
                    core::mem::swap(&mut tmp, &mut c.objects);
                    let ghost objs0 = Seq::new(tmp@.len(), |q: int| tmp@[q]@);
                    let ghost pend0 = Seq::new(pending@.len(), |q: int| pending@[q]@);
                    proof {
                        assert(objs0 =~= cv0.objects);
                        assert(objs0.take(0) =~= Seq::<ObjectView>::empty());
                        assert(Seq::new(c.objects@.len(), |q: int| c.objects@[q]@)
                            =~= Seq::<ObjectView>::empty());
                        assert(pend0 + objects_leaving(objs0.take(0), coord) =~= pend0);
                    }
                    let total = tmp.len();
                    let mut done: usize = 0;
                    while done < total
                        invariant
                            done <= total,
                            total == objs0.len(),
                            coord == c.pos,
                            tmp@.len() == total - done,
                            forall|q: int|
                                0 <= q < tmp@.len() ==> #[trigger] tmp@[q]@ == objs0[done + q],
                            Seq::new(c.objects@.len(), |q: int| c.objects@[q]@)
                                == objects_bound_for(objs0.take(done as int), coord),
                            Seq::new(pending@.len(), |q: int| pending@[q]@) == pend0
                                + objects_leaving(objs0.take(done as int), coord),
                            forall|q: int|
                                0 <= q < objs0.len() ==> object_view_wf(#[trigger] objs0[q]),

                            Seq::new(c.tiles@.len(), |q: int| c.tiles@[q]@) == cv0.tiles,
                            c.pos == cv0.pos,
                            c.bounds.0 == cv0.bounds_min,
                            c.bounds.1 == cv0.bounds_max,
                            c.visible_tiles@ == cv0.visible_tiles,
                            c.active_objects@ == cv0.active_objects,
                        decreases total - done,
                    {
                        let o = tmp.remove(0);
                        let ghost ov = o@;
                        proof {
                            assert(ov == objs0[done as int]);
                            assert(object_view_wf(ov));
                            assert(objs0.take(done as int + 1).drop_last() =~= objs0.take(
                                done as int,
                            ));
                            assert(objs0.take(done as int + 1).last() == ov);
                        }
                        let oc = crate::geom::chunk_coord(o.get_pos());
                        let ghost prev_c = Seq::new(c.objects@.len(), |q: int| c.objects@[q]@);
                        let ghost prev_p = Seq::new(pending@.len(), |q: int| pending@[q]@);
                        if oc.x == c.pos.x && oc.y == c.pos.y {
                            c.objects.push(o);
                            proof {
                                assert(spec_chunk_coord(ov.pos) == coord);
                                assert(Seq::new(c.objects@.len(), |q: int| c.objects@[q]@)
                                    =~= prev_c.push(ov));
                            }
                        } else {
                            pending.push(o);
                            proof {
                                assert(spec_chunk_coord(ov.pos) != coord);
                                assert(Seq::new(pending@.len(), |q: int| pending@[q]@)
                                    =~= prev_p.push(ov));
                                assert(pend0 + objects_leaving(objs0.take(done as int + 1), coord)
                                    =~= prev_p.push(ov));
                            }
                        }
                        done = done + 1;
                    }
                    proof {
                        assert(objs0.take(total as int) =~= objs0);
                        assert(c@ =~= (ChunkView {
                            objects: objects_bound_for(objs0, coord),
                            ..w0.chunks[ci_int]
                        }));
                    }
                    self.chunks.insert(ci, c);
                    proof {
                        assert(self@.chunks =~= chunks_before.update(
                            ci_int,
                            (ChunkView {
                                objects: objects_bound_for(objs0, coord),
                                ..w0.chunks[ci_int]
                            }),
                        ));
                        assert(pending_of(w0.chunks, vk1) == pending_of(w0.chunks, vk)
                            + objects_leaving(w0.chunks[ci_int].objects, coord));
                        assert(objects_leaving(objs0, coord) == objects_leaving(
                            w0.chunks[ci_int].objects,
                            coord,
                        ));
                        assert(Seq::new(pending@.len(), |q: int| pending@[q]@) =~= pending_of(
                            w0.chunks,
                            vk1,
                        ));
                        assert forall|i: int|
                            0 <= i < w0.chunks.len() implies #[trigger] self@.chunks[i] == (
                        if vk1.contains(w0.chunks[i].pos) {
                            ChunkView {
                                objects: objects_bound_for(w0.chunks[i].objects, w0.chunks[i].pos),
                                ..w0.chunks[i]
                            }
                        } else {
                            w0.chunks[i]
                        }) by {
                            if i == ci_int {
                                assert(vk1[vk1.len() - 1] == coord);
                                assert(vk1.contains(coord));
                            } else {
                                assert(self@.chunks[i] == chunks_before[i]);
                                assert(w0.chunks[i].pos != coord) by {
                                    if w0.chunks[i].pos == coord {
                                        assert(self@.chunks[i].pos == coord);
                                        assert(self@.chunks[ci_int].pos == coord);
                                    }
                                };
                            }
                        }
                    }
                },
            }
            k = k + 1;
        }
        proof {
            assert(w0.visible.take(nv as int) =~= w0.visible);
        }
        let ghost pend_full = pending_of(w0.chunks, w0.visible);
        proof {
            assert(Seq::new(pending@.len(), |q: int| pending@[q]@) =~= pend_full);
            lemma_pending_of_wf(w0.chunks, w0.visible);
            assert forall|i: int|
                0 <= i < w0.chunks.len() implies #[trigger] self@.chunks[i] == (ChunkView {
                objects: (if w0.visible.contains(w0.chunks[i].pos) {
                    objects_bound_for(w0.chunks[i].objects, w0.chunks[i].pos)
                } else {
                    w0.chunks[i].objects
                }) + objects_bound_for(pend_full.take(0), w0.chunks[i].pos),
                ..w0.chunks[i]
            }) by {
                assert(pend_full.take(0) =~= Seq::<ObjectView>::empty());
                let base = if w0.visible.contains(w0.chunks[i].pos) {
                    objects_bound_for(w0.chunks[i].objects, w0.chunks[i].pos)
                } else {
                    w0.chunks[i].objects
                };
                assert(base + objects_bound_for(pend_full.take(0), w0.chunks[i].pos) =~= base);
                if w0.visible.contains(w0.chunks[i].pos) {
                    assert(self@.chunks[i] == (ChunkView {
                        objects: objects_bound_for(w0.chunks[i].objects, w0.chunks[i].pos),
                        ..w0.chunks[i]
                    }));
                } else {
                    assert(self@.chunks[i] == w0.chunks[i]);
                    assert(self@.chunks[i] =~= (ChunkView { objects: base, ..w0.chunks[i] }));
                }
            }
        }
        proof {
            assert(pend_full.skip(0) =~= pend_full);
        }
        let total_p = pending.len();
        let mut p: usize = 0;
        while p < total_p
            invariant
                old(self).wf(),
                w0 == old(self)@,
                p <= total_p,
                total_p == pend_full.len(),
                pend_full == pending_of(w0.chunks, w0.visible),
                pending@.len() == total_p - p,
                forall|q: int|
                    0 <= q < pending@.len() ==> #[trigger] pending@[q]@ == pend_full[p + q],
                self.visible_chunks@ == w0.visible,
                self.tile_registry == old(self).tile_registry,
                self.object_registry == old(self).object_registry,
                self.biome_registry == old(self).biome_registry,
                self.world_name == old(self).world_name,
                self@.chunks.len() == w0.chunks.len(),
                forall|q: int| 0 <= q < pend_full.len() ==> object_view_wf(#[trigger] pend_full[q]),
                forall|i: int|
                    0 <= i < w0.chunks.len() ==> #[trigger] self@.chunks[i] == (ChunkView {
                        objects: (if w0.visible.contains(w0.chunks[i].pos) {
                            objects_bound_for(w0.chunks[i].objects, w0.chunks[i].pos)
                        } else {
                            w0.chunks[i].objects
                        }) + objects_bound_for(pend_full.take(p as int), w0.chunks[i].pos),
                        ..w0.chunks[i]
                    }),
            decreases total_p - p,
        {
            let o = pending.remove(0);
            let ghost ov = o@;
            proof {
                assert(ov == pend_full[p as int]);
                assert(object_view_wf(ov));
                assert(pend_full.take(p as int + 1).drop_last() =~= pend_full.take(p as int));
                assert(pend_full.take(p as int + 1).last() == ov);
            }
            let oc = crate::geom::chunk_coord(o.get_pos());
            proof {
                assert(oc == spec_chunk_coord(ov.pos));
            }
            let found = self.find_chunk(oc);
            match found {
                None => {
                    proof {
                        assert forall|i: int|
                            0 <= i < w0.chunks.len() implies w0.chunks[i].pos != oc by {
                            if w0.chunks[i].pos == oc {
                                assert(self@.chunks[i].pos == oc);
                                assert(has_chunk_at(self@.chunks, oc));
                            }
                        }
                    }
                },
                Some(ci) => {
                    let ghost ci_int = ci as int;
                    let ghost before = self@.chunks;
                    let mut c = self.chunks.remove(ci);
                    let ghost cv_before = before[ci as int];
                    c.objects.push(o);
                    proof {
                        assert(c@ =~= (ChunkView {
                            objects: cv_before.objects.push(ov),
                            ..cv_before
                        }));
                    }
                    self.chunks.insert(ci, c);
                    proof {
                        assert(self@.chunks =~= before.update(
                            ci_int,
                            (ChunkView {
                                objects: before[ci_int].objects.push(ov),
                                ..before[ci_int]
                            }),
                        ));
                        assert(w0.chunks[ci_int].pos == oc);
                        assert forall|i: int|
                            0 <= i < w0.chunks.len() && i != ci_int implies w0.chunks[i].pos
                            != oc by {
                            if w0.chunks[i].pos == oc {
                                assert(before[i].pos == oc);
                                assert(before[ci_int].pos == oc);
                                assert(w0.chunks[i].pos != w0.chunks[ci_int].pos);
                            }
                        }
                    }
                },
            }
            proof {
                assert forall|i: int|
                    0 <= i < w0.chunks.len() implies #[trigger] self@.chunks[i] == (ChunkView {
                    objects: (if w0.visible.contains(w0.chunks[i].pos) {
                        objects_bound_for(w0.chunks[i].objects, w0.chunks[i].pos)
                    } else {
                        w0.chunks[i].objects
                    }) + objects_bound_for(pend_full.take(p as int + 1), w0.chunks[i].pos),
                    ..w0.chunks[i]
                }) by {
                    let base = if w0.visible.contains(w0.chunks[i].pos) {
                        objects_bound_for(w0.chunks[i].objects, w0.chunks[i].pos)
                    } else {
                        w0.chunks[i].objects
                    };
                    if spec_chunk_coord(ov.pos) == w0.chunks[i].pos {
                        assert(objects_bound_for(pend_full.take(p as int + 1), w0.chunks[i].pos)
                            == objects_bound_for(pend_full.take(p as int), w0.chunks[i].pos).push(
                            ov,
                        ));
                        assert(base + objects_bound_for(
                            pend_full.take(p as int + 1),
                            w0.chunks[i].pos,
                        ) =~= (base + objects_bound_for(
                            pend_full.take(p as int),
                            w0.chunks[i].pos,
                        )).push(ov));
                    } else {
                        assert(objects_bound_for(pend_full.take(p as int + 1), w0.chunks[i].pos)
                            == objects_bound_for(pend_full.take(p as int), w0.chunks[i].pos));
                    }
                }
            }
            p = p + 1;
        }
        proof {
            assert(pend_full.take(total_p as int) =~= pend_full);
            assert forall|i: int|
                0 <= i < self@.chunks.len() implies chunk_view_wf(#[trigger] self@.chunks[i]) by {
                assert(chunk_view_wf(w0.chunks[i]));
                let cc = self@.chunks[i];
                lemma_objects_bound_for_wf(w0.chunks[i].objects, w0.chunks[i].pos);
                lemma_objects_bound_for_wf(pend_full, w0.chunks[i].pos);
            }
            assert forall|a: int, b: int|
                0 <= a < b < self@.chunks.len() implies self@.chunks[a].pos
                != self@.chunks[b].pos by {
                assert(w0.chunks[a].pos != w0.chunks[b].pos);
            }
        }
    }

    /// Resolves collisions among the objects of all visible chunks: drains
    /// them into one flat working list in visible order, gives both members
    /// of every unordered pair that will collide while approaching the
    /// default collision response, and returns every object to the chunk it
    /// came from.
    fn check_obj_collisions(&mut self)
        requires
            old(self).wf(),
        ensures
            final(self).wf(),
            final(self)@.chunks == spec_collide_phase(old(self)@.chunks, old(self)@.visible),
            final(self)@.visible == old(self)@.visible,
            final(self)@.tile_reg == old(self)@.tile_reg,
            final(self)@.object_reg == old(self)@.object_reg,
            final(self)@.biome_reg == old(self)@.biome_reg,
            final(self)@.name == old(self)@.name,
    {
        let ghost w0 = self@;
        let nv = self.visible_chunks.len();
        let mut flat: Vec<Object> = Vec::new();
        let mut counts: Vec<usize> = Vec::new();
        let mut k: usize = 0;
        while k < nv
            invariant
                old(self).wf(),
                w0 == old(self)@,
                nv == w0.visible.len(),
                k <= nv,
                self.visible_chunks@ == w0.visible,
                self.tile_registry == old(self).tile_registry,
                self.object_registry == old(self).object_registry,
                self.biome_registry == old(self).biome_registry,
                self.world_name == old(self).world_name,
                self@.chunks.len() == w0.chunks.len(),
                counts@.len() == k,
                Seq::new(flat@.len(), |q: int| flat@[q]@) == flat_objects_of(
                    w0.chunks,
                    w0.visible.take(k as int),
                ),
                forall|kk: int|
                    0 <= kk < k ==> #[trigger] counts@[kk] == (
                    if has_chunk_at(w0.chunks, w0.visible[kk]) {
                        w0.chunks[chunk_index_of(w0.chunks, w0.visible[kk])].objects.len()
                    } else {
                        0
                    }),
                forall|i: int|
                    0 <= i < w0.chunks.len() ==> #[trigger] self@.chunks[i] == (
                    if w0.visible.take(k as int).contains(w0.chunks[i].pos) {
                        ChunkView { objects: Seq::empty(), ..w0.chunks[i] }
                    } else {
                        w0.chunks[i]
                    }),
            decreases nv - k,
        {
            let coord = self.visible_chunks[k];
            let ghost vk = w0.visible.take(k as int);
            let ghost vk1 = w0.visible.take(k as int + 1);
            proof {
                assert(vk1.drop_last() =~= vk);
                assert(vk1.last() == coord);
                assert forall|pos: Vec2i|
                    pos != coord implies (vk1.contains(pos) == vk.contains(pos)) by {
                    if vk1.contains(pos) {
                        let j = choose|j: int| 0 <= j < vk1.len() && vk1[j] == pos;
                        assert(j < vk1.len() - 1);
                        assert(vk[j] == pos);
                    } else {
                        if vk.contains(pos) {
                            let j = choose|j: int| 0 <= j < vk.len() && vk[j] == pos;
                            assert(vk1[j] == pos);
                        }
                    }
                }
            }
            let found = self.find_chunk(coord);
            match found {
                None => {
                    counts.push(0);
                    proof {
                        assert forall|i: int|
                            0 <= i < w0.chunks.len() implies w0.chunks[i].pos != coord by {
                            if w0.chunks[i].pos == coord {
                                assert(self@.chunks[i].pos == coord);
                                assert(has_chunk_at(self@.chunks, coord));
                            }
                        }
                        assert(!has_chunk_at(w0.chunks, coord));
                        assert(flat_objects_of(w0.chunks, vk1) == flat_objects_of(w0.chunks, vk));
                        assert forall|i: int|
                            0 <= i < w0.chunks.len() implies #[trigger] self@.chunks[i] == (
                        if vk1.contains(w0.chunks[i].pos) {
                            ChunkView { objects: Seq::empty(), ..w0.chunks[i] }
                        } else {
                            w0.chunks[i]
                        }) by {
                            assert(w0.chunks[i].pos != coord);
                        }
                    }
                },
                Some(ci) => {
                    let ghost ci_int = ci as int;
                    proof {
                        assert(self@.chunks[ci_int].pos == coord);
                        assert(!vk.contains(coord)) by {
                            if vk.contains(coord) {
                                let j = choose|j: int| 0 <= j < vk.len() && vk[j] == coord;
                                assert(w0.visible[j] == w0.visible[k as int]);
                            }
                        };
                        assert(self@.chunks[ci_int] == w0.chunks[ci_int]);
                        lemma_chunk_index_unique(w0.chunks, coord, ci_int);
                    }
                    let ghost chunks_before = self@.chunks;
                    let ghost flat0 = Seq::new(flat@.len(), |q: int| flat@[q]@);
                    let mut c = self.chunks.remove(ci);
                    let mut tmp: Vec<Object> = Vec::new();
                    core::mem::swap(&mut tmp, &mut c.objects);
                    let cn = tmp.len();
                    counts.push(cn);
                    flat.append(&mut tmp);
                    proof {
                        assert(Seq::new(flat@.len(), |q: int| flat@[q]@) =~= flat0
                            + w0.chunks[ci_int].objects);
                        assert(flat_objects_of(w0.chunks, vk1) == flat0
                            + w0.chunks[ci_int].objects);
                        assert(c@ =~= (ChunkView { objects: Seq::empty(), ..w0.chunks[ci_int] }));
                    }
                    self.chunks.insert(ci, c);
                    proof {
                        assert(self@.chunks =~= chunks_before.update(
                            ci_int,
                            (ChunkView { objects: Seq::empty(), ..w0.chunks[ci_int] }),
                        ));
                        assert forall|i: int|
                            0 <= i < w0.chunks.len() implies #[trigger] self@.chunks[i] == (
                        if vk1.contains(w0.chunks[i].pos) {
                            ChunkView { objects: Seq::empty(), ..w0.chunks[i] }
                        } else {
                            w0.chunks[i]
                        }) by {
                            if i == ci_int {
                                assert(vk1[vk1.len() - 1] == coord);
                                assert(vk1.contains(coord));
                            } else {
                                assert(self@.chunks[i] == chunks_before[i]);
                                assert(w0.chunks[i].pos != coord) by {
                                    if w0.chunks[i].pos == coord {
                                        assert(self@.chunks[i].pos == coord);
                                        assert(self@.chunks[ci_int].pos == coord);
                                    }
                                };
                            }
                        }
                    }
                },
            }
            k = k + 1;
        }
        proof {
            assert(w0.visible.take(nv as int) =~= w0.visible);
        }
        let ghost flat_init = flat_objects_of(w0.chunks, w0.visible);
        proof {
            assert(Seq::new(flat@.len(), |q: int| flat@[q]@) == flat_init);
            lemma_flat_objects_wf(w0.chunks, w0.visible);
            assert forall|q: int|
                0 <= q < flat@.len() implies object_view_wf(#[trigger] flat@[q]@) by {
                assert(flat@[q]@ == flat_init[q]);
            }
        }
        let n = flat.len();
        let mut i: usize = 0;
        while i < n
            invariant
                n == flat@.len(),
                i <= n,
                flat_init.len() == n,
                forall|q: int| 0 <= q < flat@.len() ==> object_view_wf(#[trigger] flat@[q]@),
                collide_from(Seq::new(flat@.len(), |q: int| flat@[q]@), i as nat, (i + 1) as nat)
                    == spec_collide_all(flat_init),
            decreases n - i,
        {
            let mut j: usize = i + 1;
            while j < n
                invariant
                    n == flat@.len(),
                    i < n || i == 0,
                    i < j,
                    j <= n || j == i + 1,
                    forall|q: int| 0 <= q < flat@.len() ==> object_view_wf(#[trigger] flat@[q]@),
                    collide_from(Seq::new(flat@.len(), |q: int| flat@[q]@), i as nat, j as nat)
                        == spec_collide_all(flat_init),
                decreases n - j,
            {
                let ghost cur = Seq::new(flat@.len(), |q: int| flat@[q]@);
                proof {
                    assert(cur[i as int] == flat@[i as int]@);
                    assert(cur[j as int] == flat@[j as int]@);
                }
                let hit = flat[i].will_collide(&flat[j]) && flat[i].approaching(&flat[j]);
                if hit {
                    let mut oi = flat[i].clone_box();
                    let mut oj = flat[j].clone_box();
                    oi.collision(&flat[j]);
                    oj.collision(&flat[i]);
                    flat.set(i, oi);
                    flat.set(j, oj);
                    proof {
                        assert(Seq::new(flat@.len(), |q: int| flat@[q]@) =~= collide_once(
                            cur,
                            i as int,
                            j as int,
                        ));
                    }
                } else {
                    proof {
                        assert(collide_once(cur, i as int, j as int) == cur);
                    }
                }
                proof {
                    let now = Seq::new(flat@.len(), |q: int| flat@[q]@);
                    assert(now == collide_once(cur, i as int, j as int));
                    assert(collide_from(cur, i as nat, j as nat) == collide_from(
                        now,
                        i as nat,
                        (j + 1) as nat,
                    ));
                }
                j = j + 1;
            }
            proof {
                let cur = Seq::new(flat@.len(), |q: int| flat@[q]@);
                if i + 1 < n {
                    assert(collide_from(cur, i as nat, n as nat) == collide_from(
                        cur,
                        (i + 1) as nat,
                        (i + 2) as nat,
                    ));
                }
            }
            i = i + 1;
        }
        let ghost resolved = spec_collide_all(flat_init);
        proof {
            let cur = Seq::new(flat@.len(), |q: int| flat@[q]@);
            assert(collide_from(cur, n as nat, (n + 1) as nat) == cur);
            assert(cur == resolved);
            lemma_collide_from_preserves(flat_init, 0, 1);
            assert(resolved.len() == n);
        }
        let ghost phase = spec_collide_phase(w0.chunks, w0.visible);
        proof {
            assert forall|i2: int|
                0 <= i2 < w0.chunks.len() && !w0.visible.contains(w0.chunks[i2].pos)
                implies #[trigger] phase[i2] == w0.chunks[i2] by {
                if exists|kk: int|
                    0 <= kk < w0.visible.len() && w0.visible[kk] == w0.chunks[i2].pos {
                    let kk = choose|kk: int|
                        0 <= kk < w0.visible.len() && w0.visible[kk] == w0.chunks[i2].pos;
                    assert(w0.visible.contains(w0.chunks[i2].pos));
                }
            }
        }
        let mut k2: usize = 0;
        let ghost mut consumed_g: int = 0;
        while k2 < nv
            invariant
                old(self).wf(),
                w0 == old(self)@,
                nv == w0.visible.len(),
                k2 <= nv,
                self.visible_chunks@ == w0.visible,
                self.tile_registry == old(self).tile_registry,
                self.object_registry == old(self).object_registry,
                self.biome_registry == old(self).biome_registry,
                self.world_name == old(self).world_name,
                self@.chunks.len() == w0.chunks.len(),
                counts@.len() == nv,
                phase == spec_collide_phase(w0.chunks, w0.visible),
                resolved == spec_collide_all(flat_objects_of(w0.chunks, w0.visible)),
                resolved.len() == flat_objects_of(w0.chunks, w0.visible).len(),
                forall|q: int| 0 <= q < resolved.len() ==> object_view_wf(#[trigger] resolved[q]),
                consumed_g == flat_objects_of(w0.chunks, w0.visible.take(k2 as int)).len(),
                consumed_g <= resolved.len(),
                flat@.len() == resolved.len() - consumed_g,
                forall|q: int|
                    0 <= q < flat@.len() ==> #[trigger] flat@[q]@ == resolved[consumed_g + q],
                forall|kk: int|
                    0 <= kk < nv ==> #[trigger] counts@[kk] == (
                    if has_chunk_at(w0.chunks, w0.visible[kk]) {
                        w0.chunks[chunk_index_of(w0.chunks, w0.visible[kk])].objects.len()
                    } else {
                        0
                    }),
                forall|i2: int|
                    0 <= i2 < w0.chunks.len() ==> #[trigger] self@.chunks[i2] == (
                    if w0.visible.take(k2 as int).contains(w0.chunks[i2].pos) {
                        phase[i2]
                    } else if w0.visible.contains(w0.chunks[i2].pos) {
                        ChunkView { objects: Seq::empty(), ..w0.chunks[i2] }
                    } else {
                        w0.chunks[i2]
                    }),
            decreases nv - k2,
        {
            let coord = self.visible_chunks[k2];
            let ghost vk = w0.visible.take(k2 as int);
            let ghost vk1 = w0.visible.take(k2 as int + 1);
            proof {
                assert(vk1.drop_last() =~= vk);
                assert(vk1.last() == coord);
                assert forall|pos: Vec2i|
                    pos != coord implies (vk1.contains(pos) == vk.contains(pos)) by {
                    if vk1.contains(pos) {
                        let j = choose|j: int| 0 <= j < vk1.len() && vk1[j] == pos;
                        assert(j < vk1.len() - 1);
                        assert(vk[j] == pos);
                    } else {
                        if vk.contains(pos) {
                            let j = choose|j: int| 0 <= j < vk.len() && vk[j] == pos;
                            assert(vk1[j] == pos);
                        }
                    }
                }
                assert(!vk.contains(coord)) by {
                    if vk.contains(coord) {
                        let jx = choose|jx: int| 0 <= jx < vk.len() && vk[jx] == coord;
                        assert(w0.visible[jx] == w0.visible[k2 as int]);
                    }
                };
            }
            let found = self.find_chunk(coord);
            match found {
                None => {
                    proof {
                        assert forall|i2: int|
                            0 <= i2 < w0.chunks.len() implies w0.chunks[i2].pos != coord by {
                            if w0.chunks[i2].pos == coord {
                                assert(self@.chunks[i2].pos == coord);
                                assert(has_chunk_at(self@.chunks, coord));
                            }
                        }
                        assert(!has_chunk_at(w0.chunks, coord));
                        assert(flat_objects_of(w0.chunks, vk1) == flat_objects_of(w0.chunks, vk));
                    }
                },
                Some(ci) => {
                    let ghost ci_int = ci as int;
                    proof {
                        assert(self@.chunks[ci_int].pos == coord);
                        assert(w0.chunks[ci_int].pos == coord);
                        lemma_chunk_index_unique(w0.chunks, coord, ci_int);
                        assert(w0.visible.contains(coord)) by {
                            assert(w0.visible[k2 as int] == coord);
                        };
                        assert(self@.chunks[ci_int] == (ChunkView {
                            objects: Seq::empty(),
                            ..w0.chunks[ci_int]
                        }));
                        assert(flat_objects_of(w0.chunks, vk1) == flat_objects_of(w0.chunks, vk)
                            + w0.chunks[ci_int].objects);
                    }
                    let ghost chunks_before = self@.chunks;
                    let mut c = self.chunks.remove(ci);
                    let cnt = counts[k2];
                    proof {
                        assert(cnt == w0.chunks[ci_int].objects.len());
                        lemma_flat_prefix_len(w0.chunks, w0.visible, k2 as int + 1);
                        assert(flat_objects_of(w0.chunks, vk1).len() == consumed_g + cnt);
                        assert(resolved.len() >= consumed_g + cnt);
                        assert(chunks_before[ci_int] == (ChunkView {
                            objects: Seq::<ObjectView>::empty(),
                            ..w0.chunks[ci_int]
                        }));
                        assert(c@ == chunks_before[ci_int]);
                        assert(c@.objects == Seq::<ObjectView>::empty());
                        assert(c@.objects.len() == 0);
                        assert(c.objects@.len() == 0);
                        assert(Seq::new(c.objects@.len(), |q: int| c.objects@[q]@)
                            =~= resolved.subrange(consumed_g, consumed_g));
                        assert(Seq::new(c.tiles@.len(), |q: int| c.tiles@[q]@) == w0.chunks[
                            ci_int
                        ].tiles);
                    }
                    let mut taken: usize = 0;
                    while taken < cnt
                        invariant
                            taken <= cnt,
                            cnt == w0.chunks[ci_int].objects.len(),
                            resolved.len() >= consumed_g + cnt,
                            consumed_g >= 0,
                            flat@.len() == resolved.len() - consumed_g - taken,
                            forall|q: int|
                                0 <= q < flat@.len() ==> #[trigger] flat@[q]@ == resolved[consumed_g
                                    + taken + q],
                            forall|q: int|
                                0 <= q < resolved.len() ==> object_view_wf(#[trigger] resolved[q]),
                            c.objects@.len() == taken,
                            Seq::new(c.objects@.len(), |q: int| c.objects@[q]@) == resolved.subrange(
                                consumed_g,
                                consumed_g + taken as int,
                            ),
                            c.pos == w0.chunks[ci_int].pos,
                            Seq::new(c.tiles@.len(), |q: int| c.tiles@[q]@) == w0.chunks[
                                ci_int
                            ].tiles,
                            c.bounds.0 == w0.chunks[ci_int].bounds_min,
                            c.bounds.1 == w0.chunks[ci_int].bounds_max,
                            c.visible_tiles@ == w0.chunks[ci_int].visible_tiles,
                            c.active_objects@ == w0.chunks[ci_int].active_objects,
                        decreases cnt - taken,
                    {
                        let o = flat.remove(0);
                        let ghost prev_objs = Seq::new(c.objects@.len(), |q: int| c.objects@[q]@);
                        c.objects.push(o);
                        proof {
                            assert(o@ == resolved[consumed_g + taken]);
                            assert(Seq::new(c.objects@.len(), |q: int| c.objects@[q]@)
                                =~= prev_objs.push(o@));
                            assert(resolved.subrange(consumed_g, consumed_g + taken + 1)
                                =~= resolved.subrange(consumed_g, consumed_g + taken as int).push(
                                resolved[consumed_g + taken],
                            ));
                        }
                        taken = taken + 1;
                    }
                    proof {
                        assert(c@ =~= (ChunkView {
                            objects: resolved.subrange(consumed_g, consumed_g + cnt as int),
                            ..w0.chunks[ci_int]
                        }));
                        lemma_window_index_unique(w0.visible, coord, k2 as int);
                        assert(phase[ci_int] == (ChunkView {
                            objects: resolved.subrange(consumed_g, consumed_g + cnt as int),
                            ..w0.chunks[ci_int]
                        }));
                        assert(c@ == phase[ci_int]);
                    }
                    self.chunks.insert(ci, c);
                    proof {
                        assert(self@.chunks =~= chunks_before.update(ci_int, c@));
                        consumed_g = consumed_g + cnt as int;
                        assert(consumed_g == flat_objects_of(w0.chunks, vk1).len());
                    }
                },
            }
            proof {
                assert forall|i2: int|
                    0 <= i2 < w0.chunks.len() implies #[trigger] self@.chunks[i2] == (
                if vk1.contains(w0.chunks[i2].pos) {
                    phase[i2]
                } else if w0.visible.contains(w0.chunks[i2].pos) {
                    ChunkView { objects: Seq::empty(), ..w0.chunks[i2] }
                } else {
                    w0.chunks[i2]
                }) by {
                    if w0.chunks[i2].pos == coord {
                        assert(vk1[vk1.len() - 1] == coord);
                        assert(vk1.contains(coord));
                    }
                }
            }
            k2 = k2 + 1;
        }
        proof {
            assert(w0.visible.take(nv as int) =~= w0.visible);
            assert forall|i2: int|
                0 <= i2 < w0.chunks.len() implies #[trigger] self@.chunks[i2] == phase[i2] by {
                if w0.visible.contains(w0.chunks[i2].pos) {
                    assert(w0.visible.take(nv as int).contains(w0.chunks[i2].pos));
                } else {
                    assert(phase[i2] == w0.chunks[i2]);
                }
            }
            assert(self@.chunks =~= phase);
            assert forall|i2: int|
                0 <= i2 < self@.chunks.len() implies chunk_view_wf(#[trigger] self@.chunks[i2]) by {
                assert(chunk_view_wf(w0.chunks[i2]));
                let cc = phase[i2];
                assert forall|q: int|
                    0 <= q < cc.objects.len() implies object_view_wf(#[trigger] cc.objects[q]) by {
                    if exists|kk: int|
                        0 <= kk < w0.visible.len() && w0.visible[kk] == w0.chunks[i2].pos {
                        let kk = choose|kk: int|
                            0 <= kk < w0.visible.len() && w0.visible[kk] == w0.chunks[i2].pos;
                        let off = flat_objects_of(w0.chunks, w0.visible.take(kk)).len() as int;
                        assert(phase[i2] == (ChunkView {
                            objects: resolved.subrange(
                                off,
                                off + w0.chunks[i2].objects.len() as int,
                            ),
                            ..w0.chunks[i2]
                        }));
                        lemma_chunk_index_unique(w0.chunks, w0.chunks[i2].pos, i2);
                        assert(w0.visible.take(kk + 1).drop_last() =~= w0.visible.take(kk));
                        assert(w0.visible.take(kk + 1).last() == w0.visible[kk]);
                        assert(has_chunk_at(w0.chunks, w0.visible[kk])) by {
                            assert(w0.chunks[i2].pos == w0.visible[kk]);
                        };
                        assert(flat_objects_of(w0.chunks, w0.visible.take(kk + 1))
                            == flat_objects_of(w0.chunks, w0.visible.take(kk)) + w0.chunks[
                            i2
                        ].objects);
                        lemma_flat_prefix_len(w0.chunks, w0.visible, kk + 1);
                        assert(off + w0.chunks[i2].objects.len() <= resolved.len());
                        assert(cc.objects[q] == resolved[off + q]);
                    } else {
                        assert(cc == w0.chunks[i2]);
                    }
                }
            }
            assert forall|a: int, b: int|
                0 <= a < b < self@.chunks.len() implies self@.chunks[a].pos
                != self@.chunks[b].pos by {
                assert(w0.chunks[a].pos != w0.chunks[b].pos);
                assert(phase[a].pos == w0.chunks[a].pos && phase[b].pos == w0.chunks[b].pos) by {
                    if w0.visible.contains(w0.chunks[a].pos) {
                    }
                    if w0.visible.contains(w0.chunks[b].pos) {
                    }
                };
            }
        }
    }

    /// Advances the world by one frame: recomputes the visible window from
    /// the camera position, migrates every object whose position has
    /// crossed a chunk boundary, resolves collisions among the objects of
    /// visible chunks, and then ticks every visible chunk.
    pub fn update(&mut self, camera_pos: Vec2i, screen_size: Vec2i)
        requires
            old(self).wf(),
            camera_pos.is_pos(),
            screen_size.is_size(),
            world_chunks_pos_safe(old(self)@.chunks),
        ensures
            final(self).wf(),
            final(self)@.visible == spec_window(spec_chunk_coord(camera_pos)),
            final(self)@.tile_reg == old(self)@.tile_reg,
            final(self)@.object_reg == old(self)@.object_reg,
            final(self)@.biome_reg == old(self)@.biome_reg,
            final(self)@.name == old(self)@.name,
            ({
                let window = spec_window(spec_chunk_coord(camera_pos));
                let w1 = spec_migrate_phase(old(self)@.chunks, window);
                let w2 = spec_collide_phase(w1, window);
                &&& final(self)@.chunks.len() == w2.len()
                &&& forall|i: int|
                    0 <= i < w2.len() ==> (if window.contains(#[trigger] w2[i].pos) {
                        chunk_updated_rel(w2[i], final(self)@.chunks[i], camera_pos, screen_size)
                    } else {
                        final(self)@.chunks[i] == w2[i]
                    })
            }),
    {
        let ghost w_in = self@;
        let cam_chunk = crate::geom::chunk_coord(camera_pos);
        self.update_visible_chunks(cam_chunk);
        let ghost window = spec_window(spec_chunk_coord(camera_pos));
        proof {
            assert(self@.visible == window);
        }
        let ghost pre_migrate = self@;
        self.migrate_objects();
        let ghost w1 = spec_migrate_phase(w_in.chunks, window);
        proof {
            assert(pre_migrate.chunks == w_in.chunks);
            assert(self@.chunks =~= w1);
            assert forall|i: int, j: int|
                0 <= i < w1.len() && 0 <= j < w1[i].objects.len() implies object_pos_safe(
                #[trigger] w1[i].objects[j],
            ) by {
                let c0 = w_in.chunks[i];
                assert(forall|q: int|
                    0 <= q < c0.objects.len() ==> object_pos_safe(#[trigger] c0.objects[q]));
                lemma_bound_for_safe(c0.objects, c0.pos);
                lemma_pending_safe(w_in.chunks, window);
                lemma_bound_for_safe(pending_of(w_in.chunks, window), c0.pos);
                let base = if window.contains(c0.pos) {
                    objects_bound_for(c0.objects, c0.pos)
                } else {
                    c0.objects
                };
                let arr = objects_bound_for(pending_of(w_in.chunks, window), c0.pos);
                assert(w1[i].objects == base + arr);
                if j < base.len() {
                    assert(w1[i].objects[j] == base[j]);
                } else {
                    assert(w1[i].objects[j] == arr[j - base.len()]);
                }
            }
            assert(world_chunks_pos_safe(w1));
        }
        let ghost pre_collide = self@;
        self.check_obj_collisions();
        let ghost w2 = spec_collide_phase(w1, window);
        proof {
            assert(pre_collide.chunks == w1);
            assert(pre_collide.visible == window);
            assert(self@.chunks == spec_collide_phase(w1, window));
            let flat = flat_objects_of(w1, window);
            let resolved = spec_collide_all(flat);
            lemma_flat_safe(w1, window);
            assert forall|i: int| 0 <= i < w1.len() implies chunk_view_wf(#[trigger] w1[i]) by {
                assert(chunk_view_wf(pre_collide.chunks[i]));
            }
            lemma_flat_objects_wf(w1, window);
            lemma_collide_from_preserves(flat, 0, 1);
            assert forall|i: int, j: int|
                0 <= i < w2.len() && 0 <= j < w2[i].objects.len() implies object_pos_safe(
                #[trigger] w2[i].objects[j],
            ) by {
                if window.contains(w1[i].pos) {
                    let kk = choose|kk: int| 0 <= kk < window.len() && window[kk] == w1[i].pos;
                    let off = flat_objects_of(w1, window.take(kk)).len() as int;
                    assert(w2[i] == (ChunkView {
                        objects: resolved.subrange(off, off + w1[i].objects.len() as int),
                        ..w1[i]
                    }));
                    assert forall|a: int, b: int|
                        0 <= a < b < w1.len() implies w1[a].pos != w1[b].pos by {
                        assert(w_in.chunks[a].pos != w_in.chunks[b].pos);
                    }
                    lemma_chunk_index_unique(w1, w1[i].pos, i);
                    assert(window.take(kk + 1).drop_last() =~= window.take(kk));
                    assert(window.take(kk + 1).last() == window[kk]);
                    assert(has_chunk_at(w1, window[kk])) by {
                        assert(w1[i].pos == window[kk]);
                    };
                    assert(flat_objects_of(w1, window.take(kk + 1)) == flat_objects_of(
                        w1,
                        window.take(kk),
                    ) + w1[i].objects);
                    lemma_flat_prefix_len(w1, window, kk + 1);
                    assert(off + w1[i].objects.len() <= resolved.len());
                    assert(w2[i].objects[j] == resolved[off + j]);
                    assert(resolved[off + j].pos == flat[off + j].pos);
                    assert(object_pos_safe(flat[off + j]));
                } else {
                    assert(w2[i] == w1[i]);
                }
            }
            assert(world_chunks_pos_safe(w2));
        }
        let nv = self.visible_chunks.len();
        let mut k: usize = 0;
        while k < nv
            invariant
                camera_pos.is_pos(),
                screen_size.is_size(),
                nv == window.len(),
                k <= nv,
                self.visible_chunks@ == window,
                w2 == spec_collide_phase(w1, window),
                world_chunks_pos_safe(w2),
                self.tile_registry.wf(),
                self.object_registry.wf(),
                self.tile_registry@ == w_in.tile_reg,
                self.object_registry@ == w_in.object_reg,
                self.biome_registry@ == w_in.biome_reg,
                self.world_name@ == w_in.name,
                forall|a: int, b: int| 0 <= a < b < window.len() ==> window[a] != window[b],
                self@.chunks.len() == w2.len(),
                forall|i: int| 0 <= i < w2.len() ==> chunk_view_wf(#[trigger] w2[i]),
                forall|a: int, b: int| 0 <= a < b < w2.len() ==> w2[a].pos != w2[b].pos,
                forall|i: int| 0 <= i < self@.chunks.len() ==> chunk_view_wf(
                    #[trigger] self@.chunks[i],
                ),
                forall|i: int| 0 <= i < self@.chunks.len() ==> #[trigger] self@.chunks[i].pos
                    == w2[i].pos,
                forall|i: int|
                    0 <= i < w2.len() ==> (if window.take(k as int).contains(#[trigger] w2[i].pos) {
                        chunk_updated_rel(w2[i], self@.chunks[i], camera_pos, screen_size)
                    } else {
                        self@.chunks[i] == w2[i]
                    }),
            decreases nv - k,
        {
            let coord = self.visible_chunks[k];
            let ghost vk = window.take(k as int);
            let ghost vk1 = window.take(k as int + 1);
            proof {
                assert(vk1.drop_last() =~= vk);
                assert(vk1.last() == coord);
                assert forall|pos: Vec2i|
                    pos != coord implies (vk1.contains(pos) == vk.contains(pos)) by {
                    if vk1.contains(pos) {
                        let j = choose|j: int| 0 <= j < vk1.len() && vk1[j] == pos;
                        assert(j < vk1.len() - 1);
                        assert(vk[j] == pos);
                    } else {
                        if vk.contains(pos) {
                            let j = choose|j: int| 0 <= j < vk.len() && vk[j] == pos;
                            assert(vk1[j] == pos);
                        }
                    }
                }
                assert(!vk.contains(coord)) by {
                    if vk.contains(coord) {
                        let jx = choose|jx: int| 0 <= jx < vk.len() && vk[jx] == coord;
                        assert(window[jx] == window[k as int]);
                    }
                };
            }
            let found = self.find_chunk(coord);
            match found {
                None => {
                    proof {
                        assert forall|i: int|
                            0 <= i < w2.len() implies w2[i].pos != coord by {
                            if w2[i].pos == coord {
                                assert(self@.chunks[i].pos == coord);
                                assert(has_chunk_at(self@.chunks, coord));
                            }
                        }
                    }
                },
                Some(ci) => {
                    let ghost ci_int = ci as int;
                    proof {
                        assert(self@.chunks[ci_int].pos == coord);
                        assert(w2[ci_int].pos == coord);
                        assert(self@.chunks[ci_int] == w2[ci_int]);
                    }
                    let ghost chunks_before = self@.chunks;
                    let mut c = self.chunks.remove(ci);
                    proof {
                        assert(c@ == w2[ci_int]);
                        assert(chunk_view_wf(c@));
                        assert forall|i: int|
                            crate::chunk::spec_object_active(c@, camera_pos, screen_size, i)
                                implies can_step(c@.objects[i]) by {
                            assert(object_pos_safe(w2[ci_int].objects[i]));
                            assert(object_view_wf(w2[ci_int].objects[i]));
                            crate::object::lemma_pos_safe_can_step(w2[ci_int].objects[i]);
                        }
                    }
                    c.update(camera_pos, screen_size);
                    proof {
                        assert(chunk_updated_rel(w2[ci_int], c@, camera_pos, screen_size));
                        assert(c@.pos == w2[ci_int].pos) by {
                            if !spec_chunk_visible(w2[ci_int], camera_pos, screen_size) {
                            }
                        };
                    }
                    self.chunks.insert(ci, c);
                    proof {
                        assert(self@.chunks =~= chunks_before.update(ci_int, c@));
                        assert forall|i: int|
                            0 <= i < w2.len() && i != ci_int implies w2[i].pos != coord by {
                            assert(w2[i].pos != w2[ci_int].pos);
                        }
                    }
                },
            }
            proof {
                assert forall|i: int|
                    0 <= i < w2.len() implies (if vk1.contains(#[trigger] w2[i].pos) {
                    chunk_updated_rel(w2[i], self@.chunks[i], camera_pos, screen_size)
                } else {
                    self@.chunks[i] == w2[i]
                }) by {
                    if w2[i].pos == coord {
                        assert(vk1[vk1.len() - 1] == coord);
                        assert(vk1.contains(coord));
                    }
                }
            }
            k = k + 1;
        }
        proof {
            assert(window.take(nv as int) =~= window);
            assert forall|i: int|
                0 <= i < w2.len() implies (if window.contains(#[trigger] w2[i].pos) {
                chunk_updated_rel(w2[i], self@.chunks[i], camera_pos, screen_size)
            } else {
                self@.chunks[i] == w2[i]
            }) by {
                if window.contains(w2[i].pos) {
                    assert(window.take(nv as int).contains(w2[i].pos));
                }
            }
            assert forall|a: int, b: int|
                0 <= a < b < self@.chunks.len() implies self@.chunks[a].pos
                != self@.chunks[b].pos by {
                assert(w2[a].pos != w2[b].pos);
            }
        }
    }


    /// Fills and returns the frame's two draw batches: one holding every
    /// visible tile of every visible chunk, one holding every active
    /// object, so that all terrain is flushed before any object.  The
    /// visible-tile list of each visible chunk is recomputed first.
    pub fn draw(&mut self, camera_pos: Vec2i, screen_size: Vec2i) -> (r: (DrawBatch, DrawBatch))
        requires
            old(self).wf(),
            camera_pos.is_pos(),
            screen_size.is_size(),
        ensures
            final(self).wf(),
            final(self)@.visible == old(self)@.visible,
            final(self)@.tile_reg == old(self)@.tile_reg,
            final(self)@.object_reg == old(self)@.object_reg,
            final(self)@.biome_reg == old(self)@.biome_reg,
            final(self)@.name == old(self)@.name,
            final(self)@.chunks.len() == old(self)@.chunks.len(),
            forall|i: int|
                0 <= i < old(self)@.chunks.len() ==> (
                if old(self)@.visible.contains(#[trigger] old(self)@.chunks[i].pos)
                    && spec_chunk_visible(old(self)@.chunks[i], camera_pos, screen_size) {
                    final(self)@.chunks[i] == (ChunkView {
                        visible_tiles: final(self)@.chunks[i].visible_tiles,
                        ..old(self)@.chunks[i]
                    }) && crate::chunk::tile_list_exact(
                        old(self)@.chunks[i],
                        camera_pos,
                        screen_size,
                        final(self)@.chunks[i].visible_tiles,
                    )
                } else {
                    final(self)@.chunks[i] == old(self)@.chunks[i]
                }),
            r.0.wf(),
            r.1.wf(),
            r.0@ == spec_batch_add_all(
                Seq::empty(),
                world_tile_cmds(final(self)@.chunks, old(self)@.visible, camera_pos, screen_size),
            ),
            r.1@ == spec_batch_add_all(
                Seq::empty(),
                world_object_cmds(final(self)@.chunks, old(self)@.visible),
            ),
    {
        let ghost w0 = self@;
        let nv = self.visible_chunks.len();
        let mut k: usize = 0;
        while k < nv
            invariant
                old(self).wf(),
                w0 == old(self)@,
                camera_pos.is_pos(),
                screen_size.is_size(),
                nv == w0.visible.len(),
                k <= nv,
                self.visible_chunks@ == w0.visible,
                self.tile_registry == old(self).tile_registry,
                self.object_registry == old(self).object_registry,
                self.biome_registry == old(self).biome_registry,
                self.world_name == old(self).world_name,
                self@.chunks.len() == w0.chunks.len(),
                forall|i: int| 0 <= i < self@.chunks.len() ==> chunk_view_wf(
                    #[trigger] self@.chunks[i],
                ),
                forall|i: int| 0 <= i < self@.chunks.len() ==> #[trigger] self@.chunks[i].pos
                    == w0.chunks[i].pos,
                forall|i: int|
                    0 <= i < w0.chunks.len() ==> (
                    if w0.visible.take(k as int).contains(#[trigger] w0.chunks[i].pos)
                        && spec_chunk_visible(w0.chunks[i], camera_pos, screen_size) {
                        self@.chunks[i] == (ChunkView {
                            visible_tiles: self@.chunks[i].visible_tiles,
                            ..w0.chunks[i]
                        }) && crate::chunk::tile_list_exact(
                            w0.chunks[i],
                            camera_pos,
                            screen_size,
                            self@.chunks[i].visible_tiles,
                        )
                    } else {
                        self@.chunks[i] == w0.chunks[i]
                    }),
            decreases nv - k,
        {
            let coord = self.visible_chunks[k];
            let ghost vk = w0.visible.take(k as int);
            let ghost vk1 = w0.visible.take(k as int + 1);
            proof {
                assert(vk1.drop_last() =~= vk);
                assert(vk1.last() == coord);
                assert forall|pos: Vec2i|
                    pos != coord implies (vk1.contains(pos) == vk.contains(pos)) by {
                    if vk1.contains(pos) {
                        let j = choose|j: int| 0 <= j < vk1.len() && vk1[j] == pos;
                        assert(j < vk1.len() - 1);
                        assert(vk[j] == pos);
                    } else {
                        if vk.contains(pos) {
                            let j = choose|j: int| 0 <= j < vk.len() && vk[j] == pos;
                            assert(vk1[j] == pos);
                        }
                    }
                }
            }
            let found = self.find_chunk(coord);
            match found {
                None => {
                    proof {
                        assert forall|i: int|
                            0 <= i < w0.chunks.len() implies w0.chunks[i].pos != coord by {
                            if w0.chunks[i].pos == coord {
                                assert(self@.chunks[i].pos == coord);
                                assert(has_chunk_at(self@.chunks, coord));
                            }
                        }
                    }
                },
                Some(ci) => {
                    let ghost ci_int = ci as int;
                    let ghost chunks_before = self@.chunks;
                    proof {
                        assert(self@.chunks[ci_int].pos == coord);
                        assert(w0.chunks[ci_int].pos == coord);
                    }
                    let mut c = self.chunks.remove(ci);
                    proof {
                        assert(c@ == chunks_before[ci_int]);
                        assert(chunk_view_wf(c@));
                    }
                    if c.is_visible(camera_pos, screen_size) {
                        proof {
                            assert(!vk.contains(coord)) by {
                                if vk.contains(coord) {
                                    let jx = choose|jx: int| 0 <= jx < vk.len() && vk[jx] == coord;
                                    assert(w0.visible[jx] == w0.visible[k as int]);
                                }
                            };
                            assert(c@ == w0.chunks[ci_int]);
                        }
                        c.update_visible_tiles(camera_pos, screen_size);
                    }
                    self.chunks.insert(ci, c);
                    proof {
                        assert(self@.chunks =~= chunks_before.update(ci_int, c@));
                        assert forall|i: int|
                            0 <= i < w0.chunks.len() && i != ci_int implies w0.chunks[i].pos
                            != coord by {
                            if w0.chunks[i].pos == coord {
                                assert(self@.chunks[i].pos == coord);
                                assert(self@.chunks[ci_int].pos == coord);
                                assert(w0.chunks[i].pos != w0.chunks[ci_int].pos);
                            }
                        }
                    }
                },
            }
            proof {
                assert forall|i: int|
                    0 <= i < w0.chunks.len() implies (
                if vk1.contains(#[trigger] w0.chunks[i].pos) && spec_chunk_visible(
                    w0.chunks[i],
                    camera_pos,
                    screen_size,
                ) {
                    self@.chunks[i] == (ChunkView {
                        visible_tiles: self@.chunks[i].visible_tiles,
                        ..w0.chunks[i]
                    }) && crate::chunk::tile_list_exact(
                        w0.chunks[i],
                        camera_pos,
                        screen_size,
                        self@.chunks[i].visible_tiles,
                    )
                } else {
                    self@.chunks[i] == w0.chunks[i]
                }) by {
                    if w0.chunks[i].pos == coord {
                        assert(vk1[vk1.len() - 1] == coord);
                        assert(vk1.contains(coord));
                    }
                }
            }
            k = k + 1;
        }
        proof {
            assert(w0.visible.take(nv as int) =~= w0.visible);
            assert forall|i: int|
                0 <= i < w0.chunks.len() && w0.visible.contains(#[trigger] w0.chunks[i].pos)
                implies w0.visible.take(nv as int).contains(w0.chunks[i].pos) by {}
        }
        let ghost wmid = self@;
        let mut tiles_batch = DrawBatch::new();
        let mut k2: usize = 0;
        while k2 < nv
            invariant
                nv == self.visible_chunks@.len(),
                k2 <= nv,
                camera_pos.is_pos(),
                screen_size.is_size(),
                self@ == wmid,
                forall|i: int| 0 <= i < self@.chunks.len() ==> chunk_view_wf(
                    #[trigger] self@.chunks[i],
                ),
                forall|i: int|
                    0 <= i < w0.chunks.len() ==> (
                    if w0.visible.contains(#[trigger] w0.chunks[i].pos) && spec_chunk_visible(
                        w0.chunks[i],
                        camera_pos,
                        screen_size,
                    ) {
                        self@.chunks[i] == (ChunkView {
                            visible_tiles: self@.chunks[i].visible_tiles,
                            ..w0.chunks[i]
                        }) && crate::chunk::tile_list_exact(
                            w0.chunks[i],
                            camera_pos,
                            screen_size,
                            self@.chunks[i].visible_tiles,
                        )
                    } else {
                        self@.chunks[i] == w0.chunks[i]
                    }),
                forall|a: int, b: int|
                    0 <= a < b < self@.chunks.len() ==> self@.chunks[a].pos != self@.chunks[b].pos,
                w0 == old(self)@,
                old(self).wf(),
                self.visible_chunks@ == w0.visible,
                self@.chunks.len() == w0.chunks.len(),
                forall|i: int| 0 <= i < self@.chunks.len() ==> #[trigger] self@.chunks[i].pos
                    == w0.chunks[i].pos,
                tiles_batch.wf(),
                tiles_batch@ == spec_batch_add_all(
                    Seq::empty(),
                    world_tile_cmds(
                        self@.chunks,
                        self.visible_chunks@.take(k2 as int),
                        camera_pos,
                        screen_size,
                    ),
                ),
            decreases nv - k2,
        {
            let coord = self.visible_chunks[k2];
            let ghost vk = self.visible_chunks@.take(k2 as int);
            let ghost vk1 = self.visible_chunks@.take(k2 as int + 1);
            proof {
                assert(vk1.drop_last() =~= vk);
                assert(vk1.last() == coord);
            }
            let found = self.find_chunk(coord);
            match found {
                None => {
                    proof {
                        assert(world_tile_cmds(self@.chunks, vk1, camera_pos, screen_size)
                            == world_tile_cmds(self@.chunks, vk, camera_pos, screen_size));
                    }
                },
                Some(ci) => {
                    proof {
                        lemma_chunk_index_unique(self@.chunks, coord, ci as int);
                    }
                    if self.chunks[ci].is_visible(camera_pos, screen_size) {
                        proof {
                            assert(self@.chunks[ci as int] == self.chunks@[ci as int]@);
                            assert(w0.visible.contains(coord)) by {
                                assert(self.visible_chunks@[k2 as int] == coord);
                            };
                            assert(w0.chunks[ci as int].pos == coord);
                            assert(spec_chunk_visible(w0.chunks[ci as int], camera_pos, screen_size))
                                by {
                                if !spec_chunk_visible(w0.chunks[ci as int], camera_pos, screen_size) {
                                    assert(self@.chunks[ci as int] == w0.chunks[ci as int]);
                                }
                            };
                            assert(crate::chunk::tile_list_exact(
                                w0.chunks[ci as int],
                                camera_pos,
                                screen_size,
                                self@.chunks[ci as int].visible_tiles,
                            ));
                            assert forall|q: int|
                                0 <= q < self@.chunks[ci as int].visible_tiles.len()
                                implies #[trigger] self@.chunks[ci as int].visible_tiles[q]
                                < self@.chunks[ci as int].tiles.len() by {
                                assert(crate::chunk::spec_tile_visible(
                                    w0.chunks[ci as int],
                                    camera_pos,
                                    screen_size,
                                    self@.chunks[ci as int].visible_tiles[q] as int,
                                ));
                            }
                        }
                        let ghost bpre = tiles_batch@;
                        let ghost cmds = crate::chunk::tile_draw_cmds(self@.chunks[ci as int]);
                        let vtn = self.chunks[ci].visible_tiles.len();
                        let mut t: usize = 0;
                        while t < vtn
                            invariant
                                ci < self@.chunks.len(),
                                chunk_view_wf(self@.chunks[ci as int]),
                                vtn == self@.chunks[ci as int].visible_tiles.len(),
                                t <= vtn,
                                cmds == crate::chunk::tile_draw_cmds(self@.chunks[ci as int]),
                                cmds.len() == vtn,
                                forall|q: int|
                                    0 <= q < vtn ==> #[trigger] self@.chunks[
                                        ci as int
                                    ].visible_tiles[q] < self@.chunks[ci as int].tiles.len(),
                                tiles_batch.wf(),
                                tiles_batch@ == spec_batch_add_all(bpre, cmds.take(t as int)),
                            decreases vtn - t,
                        {
                            let idx = self.chunks[ci].visible_tiles[t];
                            proof {
                                assert(self@.chunks[ci as int] == self.chunks@[ci as int]@);
                                assert(self@.chunks[ci as int].visible_tiles[t as int] == idx);
                                assert(idx < self.chunks@[ci as int].tiles@.len());
                                assert(cmds.take(t as int + 1).drop_last() =~= cmds.take(t as int));
                                assert(cmds.take(t as int + 1).last() == cmds[t as int]);
                                assert(self@.chunks[ci as int].tiles[idx as int] == self.chunks@[
                                    ci as int
                                ].tiles@[idx as int]@);
                            }
                            let p = self.chunks[ci].tiles[idx].get_pos();
                            let ghost bstep = tiles_batch@;
                            self.chunks[ci].tiles[idx].draw(&mut tiles_batch, p);
                            proof {
                                assert(tiles_batch@ == crate::draw::spec_batch_add(
                                    bstep,
                                    cmds[t as int].0,
                                    cmds[t as int].1,
                                ));
                            }
                            t = t + 1;
                        }
                        proof {
                            assert(cmds.take(vtn as int) =~= cmds);
                            assert(world_tile_cmds(self@.chunks, vk1, camera_pos, screen_size)
                                =~= world_tile_cmds(self@.chunks, vk, camera_pos, screen_size)
                                + cmds);
                            lemma_batch_add_all_concat(
                                Seq::empty(),
                                world_tile_cmds(self@.chunks, vk, camera_pos, screen_size),
                                cmds,
                            );
                        }
                    } else {
                        proof {
                            assert(world_tile_cmds(self@.chunks, vk1, camera_pos, screen_size)
                                == world_tile_cmds(self@.chunks, vk, camera_pos, screen_size));
                        }
                    }
                },
            }
            k2 = k2 + 1;
        }
        let mut objects_batch = DrawBatch::new();
        let mut k3: usize = 0;
        while k3 < nv
            invariant
                nv == self.visible_chunks@.len(),
                k3 <= nv,
                self@ == wmid,
                forall|i: int| 0 <= i < self@.chunks.len() ==> chunk_view_wf(
                    #[trigger] self@.chunks[i],
                ),
                forall|a: int, b: int|
                    0 <= a < b < self@.chunks.len() ==> self@.chunks[a].pos != self@.chunks[b].pos,
                objects_batch.wf(),
                objects_batch@ == spec_batch_add_all(
                    Seq::empty(),
                    world_object_cmds(self@.chunks, self.visible_chunks@.take(k3 as int)),
                ),
            decreases nv - k3,
        {
            let coord = self.visible_chunks[k3];
            let ghost vk = self.visible_chunks@.take(k3 as int);
            let ghost vk1 = self.visible_chunks@.take(k3 as int + 1);
            proof {
                assert(vk1.drop_last() =~= vk);
                assert(vk1.last() == coord);
            }
            let found = self.find_chunk(coord);
            match found {
                None => {
                    proof {
                        assert(world_object_cmds(self@.chunks, vk1) == world_object_cmds(
                            self@.chunks,
                            vk,
                        ));
                    }
                },
                Some(ci) => {
                    proof {
                        lemma_chunk_index_unique(self@.chunks, coord, ci as int);
                        assert(self@.chunks[ci as int] == self.chunks@[ci as int]@);
                    }
                    let ghost bpre = objects_batch@;
                    self.chunks[ci].draw_objects(&mut objects_batch);
                    proof {
                        let cmds = crate::chunk::object_draw_cmds(
                            self@.chunks[ci as int],
                            self@.chunks[ci as int].active_objects.len() as int,
                        );
                        assert(world_object_cmds(self@.chunks, vk1) =~= world_object_cmds(
                            self@.chunks,
                            vk,
                        ) + cmds);
                        lemma_batch_add_all_concat(
                            Seq::empty(),
                            world_object_cmds(self@.chunks, vk),
                            cmds,
                        );
                    }
                },
            }
            k3 = k3 + 1;
        }
        proof {
            assert(self.visible_chunks@.take(nv as int) =~= self.visible_chunks@);
        }
        (tiles_batch, objects_batch)
    }


    /// References to the objects of visible chunks whose tag is exactly
    /// `type_tag`, scanning the visible coordinates in order.
    pub fn get_objects_by_type<'a>(&'a self, type_tag: &str) -> (r: Vec<&'a Object>)
        requires
            self.wf(),
        ensures
            Seq::new(r@.len(), |i: int| r@[i]@) == visible_objects_with_tag(
                self@.chunks,
                self@.visible,
                type_tag@,
            ),
    {
        let mut found: Vec<&Object> = Vec::new();
        let nv = self.visible_chunks.len();
        let mut k: usize = 0;
        while k < nv
            invariant
                self.wf(),
                nv == self@.visible.len(),
                k <= nv,
                Seq::new(found@.len(), |i: int| found@[i]@) == visible_objects_with_tag(
                    self@.chunks,
                    self@.visible.take(k as int),
                    type_tag@,
                ),
            decreases nv - k,
        {
            let coord = self.visible_chunks[k];
            let ghost vk = self@.visible.take(k as int);
            let ghost vk1 = self@.visible.take(k as int + 1);
            proof {
                assert(vk1.drop_last() =~= vk);
                assert(vk1.last() == coord);
            }
            let foundc = self.find_chunk(coord);
            match foundc {
                None => {},
                Some(ci) => {
                    proof {
                        assert(self@.chunks[ci as int] == self.chunks@[ci as int]@);
                        lemma_chunk_index_unique(self@.chunks, coord, ci as int);
                    }
                    let ghost prev = Seq::new(found@.len(), |i: int| found@[i]@);
                    let mut sub = self.chunks[ci].get_objects_by_type(type_tag);
                    let ghost subv = Seq::new(sub@.len(), |i: int| sub@[i]@);
                    found.append(&mut sub);
                    proof {
                        assert(Seq::new(found@.len(), |i: int| found@[i]@) =~= prev + subv);
                    }
                },
            }
            proof {
                if has_chunk_at(self@.chunks, coord) {
                    let ci2 = chunk_index_of(self@.chunks, coord);
                    assert(0 <= ci2 < self@.chunks.len() && self@.chunks[ci2].pos == coord);
                }
            }
            k = k + 1;
        }
        proof {
            assert(self@.visible.take(nv as int) =~= self@.visible);
        }
        found
    }

    /// References to the tiles of visible chunks whose tag is exactly
    /// `type_tag`, scanning the visible coordinates in order.
    pub fn get_tiles_by_type<'a>(&'a self, type_tag: &str) -> (r: Vec<&'a Tile>)
        requires
            self.wf(),
        ensures
            Seq::new(r@.len(), |i: int| r@[i]@) == visible_tiles_with_tag(
                self@.chunks,
                self@.visible,
                type_tag@,
            ),
    {
        let mut found: Vec<&Tile> = Vec::new();
        let nv = self.visible_chunks.len();
        let mut k: usize = 0;
        while k < nv
            invariant
                self.wf(),
                nv == self@.visible.len(),
                k <= nv,
                Seq::new(found@.len(), |i: int| found@[i]@) == visible_tiles_with_tag(
                    self@.chunks,
                    self@.visible.take(k as int),
                    type_tag@,
                ),
            decreases nv - k,
        {
            let coord = self.visible_chunks[k];
            let ghost vk = self@.visible.take(k as int);
            let ghost vk1 = self@.visible.take(k as int + 1);
            proof {
                assert(vk1.drop_last() =~= vk);
                assert(vk1.last() == coord);
            }
            let foundc = self.find_chunk(coord);
            match foundc {
                None => {},
                Some(ci) => {
                    proof {
                        assert(self@.chunks[ci as int] == self.chunks@[ci as int]@);
                        lemma_chunk_index_unique(self@.chunks, coord, ci as int);
                    }
                    let ghost prev = Seq::new(found@.len(), |i: int| found@[i]@);
                    let mut sub = self.chunks[ci].get_tiles_by_type(type_tag);
                    let ghost subv = Seq::new(sub@.len(), |i: int| sub@[i]@);
                    found.append(&mut sub);
                    proof {
                        assert(Seq::new(found@.len(), |i: int| found@[i]@) =~= prev + subv);
                    }
                },
            }
            proof {
                if has_chunk_at(self@.chunks, coord) {
                    let ci2 = chunk_index_of(self@.chunks, coord);
                    assert(0 <= ci2 < self@.chunks.len() && self@.chunks[ci2].pos == coord);
                }
            }
            k = k + 1;
        }
        proof {
            assert(self@.visible.take(nv as int) =~= self@.visible);
        }
        found
    }

}

/// The objects of `s` whose position maps to the chunk coordinate `coord`,
/// in list order.
pub open spec fn objects_bound_for(s: Seq<ObjectView>, coord: Vec2i) -> Seq<ObjectView>
    decreases s.len(),
{
    if s.len() == 0 {
        Seq::empty()
    } else {
        let prefix = objects_bound_for(s.drop_last(), coord);
        if spec_chunk_coord(s.last().pos) == coord {
            prefix.push(s.last())
        } else {
            prefix
        }
    }
}

/// Every object selected by `objects_bound_for` comes from `s`.
pub proof fn lemma_objects_bound_for_wf(s: Seq<ObjectView>, coord: Vec2i)
    requires
        forall|q: int| 0 <= q < s.len() ==> object_view_wf(#[trigger] s[q]),
    ensures
        forall|q: int|
            0 <= q < objects_bound_for(s, coord).len() ==> object_view_wf(
                #[trigger] objects_bound_for(s, coord)[q],
            ),
    decreases s.len(),
{
    if s.len() == 0 {
    } else {
        assert(forall|q: int|
            0 <= q < s.drop_last().len() ==> object_view_wf(#[trigger] s.drop_last()[q]));
        lemma_objects_bound_for_wf(s.drop_last(), coord);
        let pre = objects_bound_for(s.drop_last(), coord);
        assert forall|q: int|
            0 <= q < objects_bound_for(s, coord).len() implies object_view_wf(
            #[trigger] objects_bound_for(s, coord)[q],
        ) by {
            if spec_chunk_coord(s.last().pos) == coord {
                assert(objects_bound_for(s, coord) == pre.push(s.last()));
                if q < pre.len() {
                    assert(object_view_wf(pre[q]));
                } else {
                    assert(objects_bound_for(s, coord)[q] == s.last());
                    assert(object_view_wf(s[s.len() - 1]));
                }
            } else {
                assert(object_view_wf(pre[q]));
            }
        }
    }
}

/// The objects of `s` whose position maps outside the chunk coordinate
/// `coord`, in list order.
pub open spec fn objects_leaving(s: Seq<ObjectView>, coord: Vec2i) -> Seq<ObjectView>
    decreases s.len(),
{
    if s.len() == 0 {
        Seq::empty()
    } else {
        let prefix = objects_leaving(s.drop_last(), coord);
        if spec_chunk_coord(s.last().pos) != coord {
            prefix.push(s.last())
        } else {
            prefix
        }
    }
}

/// Every object selected by `objects_leaving` comes from `s`.
pub proof fn lemma_objects_leaving_wf(s: Seq<ObjectView>, coord: Vec2i)
    requires
        forall|q: int| 0 <= q < s.len() ==> object_view_wf(#[trigger] s[q]),
    ensures
        forall|q: int|
            0 <= q < objects_leaving(s, coord).len() ==> object_view_wf(
                #[trigger] objects_leaving(s, coord)[q],
            ),
    decreases s.len(),
{
    if s.len() == 0 {
    } else {
        assert(forall|q: int|
            0 <= q < s.drop_last().len() ==> object_view_wf(#[trigger] s.drop_last()[q]));
        lemma_objects_leaving_wf(s.drop_last(), coord);
        let pre = objects_leaving(s.drop_last(), coord);
        assert forall|q: int|
            0 <= q < objects_leaving(s, coord).len() implies object_view_wf(
            #[trigger] objects_leaving(s, coord)[q],
        ) by {
            if spec_chunk_coord(s.last().pos) != coord {
                assert(objects_leaving(s, coord) == pre.push(s.last()));
                if q < pre.len() {
                    assert(object_view_wf(pre[q]));
                } else {
                    assert(objects_leaving(s, coord)[q] == s.last());
                    assert(object_view_wf(s[s.len() - 1]));
                }
            } else {
                assert(object_view_wf(pre[q]));
            }
        }
    }
}

/// The migration backlog: scanning the visible coordinates in order, the
/// objects leaving the chunk at each coordinate, concatenated.
pub open spec fn pending_of(chunks: Seq<ChunkView>, visible: Seq<Vec2i>) -> Seq<ObjectView>
    decreases visible.len(),
{
    if visible.len() == 0 {
        Seq::empty()
    } else {
        let prev = pending_of(chunks, visible.drop_last());
        if has_chunk_at(chunks, visible.last()) {
            prev + objects_leaving(
                chunks[chunk_index_of(chunks, visible.last())].objects,
                visible.last(),
            )
        } else {
            prev
        }
    }
}

/// Every object in the backlog is one of some chunk's objects.
pub proof fn lemma_pending_of_wf(chunks: Seq<ChunkView>, visible: Seq<Vec2i>)
    requires
        forall|i: int| 0 <= i < chunks.len() ==> chunk_view_wf(#[trigger] chunks[i]),
    ensures
        forall|q: int|
            0 <= q < pending_of(chunks, visible).len() ==> object_view_wf(
                #[trigger] pending_of(chunks, visible)[q],
            ),
    decreases visible.len(),
{
    if visible.len() == 0 {
    } else {
        lemma_pending_of_wf(chunks, visible.drop_last());
        let prev = pending_of(chunks, visible.drop_last());
        if has_chunk_at(chunks, visible.last()) {
            let ci = chunk_index_of(chunks, visible.last());
            assert(0 <= ci < chunks.len());
            assert(chunk_view_wf(chunks[ci]));
            lemma_objects_leaving_wf(chunks[ci].objects, visible.last());
            let leaving = objects_leaving(chunks[ci].objects, visible.last());
            assert forall|q: int|
                0 <= q < pending_of(chunks, visible).len() implies object_view_wf(
                #[trigger] pending_of(chunks, visible)[q],
            ) by {
                assert(pending_of(chunks, visible) == prev + leaving);
                if q < prev.len() {
                    assert(object_view_wf(prev[q]));
                } else {
                    assert(pending_of(chunks, visible)[q] == leaving[q - prev.len()]);
                    assert(object_view_wf(leaving[q - prev.len()]));
                }
            }
        }
    }
}

/// One chunk after the migration pass: a visible chunk retains only the
/// objects that still map to it, and every chunk receives, in backlog
/// order, the migrating objects whose position maps to it.  An object
/// bound for a coordinate with no loaded chunk is dropped.
pub open spec fn spec_migrate_chunk(
    c: ChunkView,
    visible: Seq<Vec2i>,
    pending: Seq<ObjectView>,
) -> ChunkView {
    let base = if visible.contains(c.pos) {
        objects_bound_for(c.objects, c.pos)
    } else {
        c.objects
    };
    ChunkView { objects: base + objects_bound_for(pending, c.pos), ..c }
}

/// All objects of the visible chunks, drained in visible order into one
/// flat working list.
pub open spec fn flat_objects_of(chunks: Seq<ChunkView>, visible: Seq<Vec2i>) -> Seq<ObjectView>
    decreases visible.len(),
{
    if visible.len() == 0 {
        Seq::empty()
    } else {
        let prev = flat_objects_of(chunks, visible.drop_last());
        if has_chunk_at(chunks, visible.last()) {
            prev + chunks[chunk_index_of(chunks, visible.last())].objects
        } else {
            prev
        }
    }
}

/// One pairwise step of the collision pass: when the pair `(i, j)` both
/// will collide and is approaching, each receives the default collision
/// response against the other's state before the step.
pub open spec fn collide_once(s: Seq<ObjectView>, i: int, j: int) -> Seq<ObjectView> {
    if spec_will_collide(s[i], s[j]) && spec_approaching(s[i], s[j]) {
        s.update(i, spec_collision_response(s[i], s[j])).update(
            j,
            spec_collision_response(s[j], s[i]),
        )
    } else {
        s
    }
}

/// The collision pass from the pair `(i, j)` onward: every unordered pair
/// in index order, each step acting on the state the previous step left.
pub open spec fn collide_from(s: Seq<ObjectView>, i: nat, j: nat) -> Seq<ObjectView>
    decreases s.len() - i, s.len() - j,
{
    if i + 1 >= s.len() {
        s
    } else if j >= s.len() {
        collide_from(s, i + 1, i + 2)
    } else if j <= i {
        s
    } else {
        collide_from(collide_once(s, i as int, j as int), i, j + 1)
    }
}

/// The whole collision pass over the flat working list.
pub open spec fn spec_collide_all(s: Seq<ObjectView>) -> Seq<ObjectView> {
    collide_from(s, 0, 1)
}

/// A collision step keeps the length, every bound, and everything but the
/// velocities.
pub proof fn lemma_collide_from_preserves(s: Seq<ObjectView>, i: nat, j: nat)
    requires
        forall|q: int| 0 <= q < s.len() ==> object_view_wf(#[trigger] s[q]),
    ensures
        collide_from(s, i, j).len() == s.len(),
        forall|q: int|
            0 <= q < s.len() ==> object_view_wf(#[trigger] collide_from(s, i, j)[q]),
        forall|q: int|
            0 <= q < s.len() ==> {
                &&& (#[trigger] collide_from(s, i, j)[q]).tag == s[q].tag
                &&& collide_from(s, i, j)[q].pos == s[q].pos
                &&& collide_from(s, i, j)[q].size == s[q].size
                &&& collide_from(s, i, j)[q].texture == s[q].texture
            },
    decreases s.len() - i, s.len() - j,
{
    if i + 1 >= s.len() {
    } else if j >= s.len() {
        lemma_collide_from_preserves(s, i + 1, i + 2);
    } else if j <= i {
    } else {
        let s1 = collide_once(s, i as int, j as int);
        assert(s1.len() == s.len());
        assert(forall|q: int| 0 <= q < s1.len() ==> object_view_wf(#[trigger] s1[q]));
        lemma_collide_from_preserves(s1, i, j + 1);
    }
}

/// The chunks after the collision pass: each visible chunk's objects are
/// replaced by its own segment of the resolved flat list; chunks outside
/// the window are untouched.
pub open spec fn spec_collide_phase(chunks: Seq<ChunkView>, visible: Seq<Vec2i>) -> Seq<ChunkView> {
    let resolved = spec_collide_all(flat_objects_of(chunks, visible));
    Seq::new(
        chunks.len(),
        |i: int|
            if exists|k: int| 0 <= k < visible.len() && visible[k] == chunks[i].pos {
                let k = choose|k: int| 0 <= k < visible.len() && visible[k] == chunks[i].pos;
                let off = flat_objects_of(chunks, visible.take(k)).len() as int;
                ChunkView {
                    objects: resolved.subrange(off, off + chunks[i].objects.len() as int),
                    ..chunks[i]
                }
            } else {
                chunks[i]
            },
    )
}

/// With distinct window coordinates, any window position showing a chunk's
/// coordinate is the one selected.
pub proof fn lemma_window_index_unique(visible: Seq<Vec2i>, coord: Vec2i, k: int)
    requires
        forall|a: int, b: int| 0 <= a < b < visible.len() ==> visible[a] != visible[b],
        0 <= k < visible.len(),
        visible[k] == coord,
    ensures
        (choose|k2: int| 0 <= k2 < visible.len() && visible[k2] == coord) == k,
{
    let j = choose|k2: int| 0 <= k2 < visible.len() && visible[k2] == coord;
    if k < j {
        assert(visible[k] != visible[j]);
    } else if j < k {
        assert(visible[j] != visible[k]);
    }
}

/// Every object of the flat working list is one of some chunk's objects.
pub proof fn lemma_flat_objects_wf(chunks: Seq<ChunkView>, visible: Seq<Vec2i>)
    requires
        forall|i: int| 0 <= i < chunks.len() ==> chunk_view_wf(#[trigger] chunks[i]),
    ensures
        forall|q: int|
            0 <= q < flat_objects_of(chunks, visible).len() ==> object_view_wf(
                #[trigger] flat_objects_of(chunks, visible)[q],
            ),
    decreases visible.len(),
{
    if visible.len() == 0 {
    } else {
        lemma_flat_objects_wf(chunks, visible.drop_last());
        let prev = flat_objects_of(chunks, visible.drop_last());
        if has_chunk_at(chunks, visible.last()) {
            let ci = chunk_index_of(chunks, visible.last());
            assert(chunk_view_wf(chunks[ci]));
            assert forall|q: int|
                0 <= q < flat_objects_of(chunks, visible).len() implies object_view_wf(
                #[trigger] flat_objects_of(chunks, visible)[q],
            ) by {
                assert(flat_objects_of(chunks, visible) == prev + chunks[ci].objects);
                if q < prev.len() {
                    assert(object_view_wf(prev[q]));
                } else {
                    assert(flat_objects_of(chunks, visible)[q] == chunks[ci].objects[q
                        - prev.len()]);
                }
            }
        }
    }
}

/// A prefix of the window never drains more objects than the whole window.
pub proof fn lemma_flat_prefix_len(chunks: Seq<ChunkView>, visible: Seq<Vec2i>, m: int)
    requires
        0 <= m <= visible.len(),
    ensures
        flat_objects_of(chunks, visible.take(m)).len() <= flat_objects_of(chunks, visible).len(),
    decreases visible.len() - m,
{
    if m == visible.len() {
        assert(visible.take(m) =~= visible);
    } else {
        lemma_flat_prefix_len(chunks, visible.take(visible.len() - 1), m);
        assert(visible.take(visible.len() - 1).take(m) =~= visible.take(m));
        assert(visible.drop_last() =~= visible.take(visible.len() - 1));
    }
}

/// Every object of `s` satisfying nothing more than membership keeps the
/// safety margin when `s` does: selection by destination keeps it.
pub proof fn lemma_bound_for_safe(s: Seq<ObjectView>, coord: Vec2i)
    requires
        forall|q: int| 0 <= q < s.len() ==> object_pos_safe(#[trigger] s[q]),
    ensures
        forall|q: int|
            0 <= q < objects_bound_for(s, coord).len() ==> object_pos_safe(
                #[trigger] objects_bound_for(s, coord)[q],
            ),
    decreases s.len(),
{
    if s.len() == 0 {
    } else {
        assert(forall|q: int|
            0 <= q < s.drop_last().len() ==> object_pos_safe(#[trigger] s.drop_last()[q]));
        lemma_bound_for_safe(s.drop_last(), coord);
        let pre = objects_bound_for(s.drop_last(), coord);
        assert forall|q: int|
            0 <= q < objects_bound_for(s, coord).len() implies object_pos_safe(
            #[trigger] objects_bound_for(s, coord)[q],
        ) by {
            if spec_chunk_coord(s.last().pos) == coord {
                if q < pre.len() {
                    assert(object_pos_safe(pre[q]));
                } else {
                    assert(objects_bound_for(s, coord)[q] == s.last());
                    assert(object_pos_safe(s[s.len() - 1]));
                }
            } else {
                assert(object_pos_safe(pre[q]));
            }
        }
    }
}

/// Selection by departure keeps the safety margin.
pub proof fn lemma_leaving_safe(s: Seq<ObjectView>, coord: Vec2i)
    requires
        forall|q: int| 0 <= q < s.len() ==> object_pos_safe(#[trigger] s[q]),
    ensures
        forall|q: int|
            0 <= q < objects_leaving(s, coord).len() ==> object_pos_safe(
                #[trigger] objects_leaving(s, coord)[q],
            ),
    decreases s.len(),
{
    if s.len() == 0 {
    } else {
        assert(forall|q: int|
            0 <= q < s.drop_last().len() ==> object_pos_safe(#[trigger] s.drop_last()[q]));
        lemma_leaving_safe(s.drop_last(), coord);
        let pre = objects_leaving(s.drop_last(), coord);
        assert forall|q: int|
            0 <= q < objects_leaving(s, coord).len() implies object_pos_safe(
            #[trigger] objects_leaving(s, coord)[q],
        ) by {
            if spec_chunk_coord(s.last().pos) != coord {
                if q < pre.len() {
                    assert(object_pos_safe(pre[q]));
                } else {
                    assert(objects_leaving(s, coord)[q] == s.last());
                    assert(object_pos_safe(s[s.len() - 1]));
                }
            } else {
                assert(object_pos_safe(pre[q]));
            }
        }
    }
}

/// True when every object of every chunk keeps the safety margin.
pub open spec fn world_chunks_pos_safe(chunks: Seq<ChunkView>) -> bool {
    forall|i: int, j: int|
        0 <= i < chunks.len() && 0 <= j < chunks[i].objects.len() ==> object_pos_safe(
            #[trigger] chunks[i].objects[j],
        )
}

/// The backlog keeps the safety margin.
pub proof fn lemma_pending_safe(chunks: Seq<ChunkView>, visible: Seq<Vec2i>)
    requires
        world_chunks_pos_safe(chunks),
    ensures
        forall|q: int|
            0 <= q < pending_of(chunks, visible).len() ==> object_pos_safe(
                #[trigger] pending_of(chunks, visible)[q],
            ),
    decreases visible.len(),
{
    if visible.len() == 0 {
    } else {
        lemma_pending_safe(chunks, visible.drop_last());
        let prev = pending_of(chunks, visible.drop_last());
        if has_chunk_at(chunks, visible.last()) {
            let ci = chunk_index_of(chunks, visible.last());
            assert(forall|j: int|
                0 <= j < chunks[ci].objects.len() ==> object_pos_safe(
                    #[trigger] chunks[ci].objects[j],
                ));
            lemma_leaving_safe(chunks[ci].objects, visible.last());
            let leaving = objects_leaving(chunks[ci].objects, visible.last());
            assert forall|q: int|
                0 <= q < pending_of(chunks, visible).len() implies object_pos_safe(
                #[trigger] pending_of(chunks, visible)[q],
            ) by {
                assert(pending_of(chunks, visible) == prev + leaving);
                if q < prev.len() {
                    assert(object_pos_safe(prev[q]));
                } else {
                    assert(pending_of(chunks, visible)[q] == leaving[q - prev.len()]);
                    assert(object_pos_safe(leaving[q - prev.len()]));
                }
            }
        }
    }
}

/// The flat working list keeps the safety margin.
pub proof fn lemma_flat_safe(chunks: Seq<ChunkView>, visible: Seq<Vec2i>)
    requires
        world_chunks_pos_safe(chunks),
    ensures
        forall|q: int|
            0 <= q < flat_objects_of(chunks, visible).len() ==> object_pos_safe(
                #[trigger] flat_objects_of(chunks, visible)[q],
            ),
    decreases visible.len(),
{
    if visible.len() == 0 {
    } else {
        lemma_flat_safe(chunks, visible.drop_last());
        let prev = flat_objects_of(chunks, visible.drop_last());
        if has_chunk_at(chunks, visible.last()) {
            let ci = chunk_index_of(chunks, visible.last());
            assert forall|q: int|
                0 <= q < flat_objects_of(chunks, visible).len() implies object_pos_safe(
                #[trigger] flat_objects_of(chunks, visible)[q],
            ) by {
                assert(flat_objects_of(chunks, visible) == prev + chunks[ci].objects);
                if q < prev.len() {
                    assert(object_pos_safe(prev[q]));
                } else {
                    assert(flat_objects_of(chunks, visible)[q] == chunks[ci].objects[q
                        - prev.len()]);
                    assert(object_pos_safe(chunks[ci].objects[q - prev.len()]));
                }
            }
        }
    }
}

/// How one frame leaves a chunk relative to the state it entered the tick
/// with, exactly as `Chunk::update` states it.
pub open spec fn chunk_updated_rel(
    pre: ChunkView,
    post: ChunkView,
    camera: Vec2i,
    screen: Vec2i,
) -> bool {
    if !spec_chunk_visible(pre, camera, screen) {
        post == pre
    } else {
        &&& post.pos == pre.pos
        &&& post.bounds_min == pre.bounds_min
        &&& post.bounds_max == pre.bounds_max
        &&& post.tiles == pre.tiles
        &&& crate::chunk::tile_list_exact(pre, camera, screen, post.visible_tiles)
        &&& crate::chunk::active_list_exact(pre, camera, screen, post.active_objects)
        &&& post.objects.len() == pre.objects.len()
        &&& forall|i: int|
            0 <= i < pre.objects.len() ==> post.objects[i] == (
            if crate::chunk::spec_object_active(pre, camera, screen, i) {
                crate::object::stepped(pre.objects[i])
            } else {
                pre.objects[i]
            })
    }
}

/// The chunks after the migration pass, as one value.
pub open spec fn spec_migrate_phase(chunks: Seq<ChunkView>, visible: Seq<Vec2i>) -> Seq<ChunkView> {
    Seq::new(
        chunks.len(),
        |i: int| spec_migrate_chunk(chunks[i], visible, pending_of(chunks, visible)),
    )
}

/// The tile submissions of one frame: for each visible coordinate in
/// order, the visible-tile submissions of the chunk there, when one is
/// loaded and meets the viewport.
pub open spec fn world_tile_cmds(
    chunks: Seq<ChunkView>,
    visible: Seq<Vec2i>,
    camera: Vec2i,
    screen: Vec2i,
) -> Seq<(u64, crate::draw::DrawItem)>
    decreases visible.len(),
{
    if visible.len() == 0 {
        Seq::empty()
    } else {
        let prev = world_tile_cmds(chunks, visible.drop_last(), camera, screen);
        if has_chunk_at(chunks, visible.last()) {
            let c = chunks[chunk_index_of(chunks, visible.last())];
            if spec_chunk_visible(c, camera, screen) {
                prev + crate::chunk::tile_draw_cmds(c)
            } else {
                prev
            }
        } else {
            prev
        }
    }
}

/// The object submissions of one frame: for each visible coordinate in
/// order, the active-object submissions of the chunk there, when one is
/// loaded.
pub open spec fn world_object_cmds(chunks: Seq<ChunkView>, visible: Seq<Vec2i>) -> Seq<
    (u64, crate::draw::DrawItem),
>
    decreases visible.len(),
{
    if visible.len() == 0 {
        Seq::empty()
    } else {
        let prev = world_object_cmds(chunks, visible.drop_last());
        if has_chunk_at(chunks, visible.last()) {
            let c = chunks[chunk_index_of(chunks, visible.last())];
            prev + crate::chunk::object_draw_cmds(c, c.active_objects.len() as int)
        } else {
            prev
        }
    }
}

/// Adding two runs of commands one after the other adds their
/// concatenation.
pub proof fn lemma_batch_add_all_concat(
    b: Seq<crate::draw::TextureGroupView>,
    c1: Seq<(u64, crate::draw::DrawItem)>,
    c2: Seq<(u64, crate::draw::DrawItem)>,
)
    ensures
        spec_batch_add_all(spec_batch_add_all(b, c1), c2) == spec_batch_add_all(b, c1 + c2),
    decreases c2.len(),
{
    if c2.len() == 0 {
        assert(c1 + c2 =~= c1);
    } else {
        lemma_batch_add_all_concat(b, c1, c2.drop_last());
        assert((c1 + c2).drop_last() =~= c1 + c2.drop_last());
        assert((c1 + c2).last() == c2.last());
    }
}

/// The objects with tag `tag` of each chunk at a visible coordinate, in
/// visible order then list order.
pub open spec fn visible_objects_with_tag(
    chunks: Seq<ChunkView>,
    visible: Seq<Vec2i>,
    tag: Seq<char>,
) -> Seq<ObjectView>
    decreases visible.len(),
{
    if visible.len() == 0 {
        Seq::empty()
    } else {
        let prev = visible_objects_with_tag(chunks, visible.drop_last(), tag);
        if has_chunk_at(chunks, visible.last()) {
            prev + crate::chunk::objects_with_tag(
                chunks[chunk_index_of(chunks, visible.last())].objects,
                tag,
            )
        } else {
            prev
        }
    }
}

/// The tiles with tag `tag` of each chunk at a visible coordinate, in
/// visible order then list order.
pub open spec fn visible_tiles_with_tag(
    chunks: Seq<ChunkView>,
    visible: Seq<Vec2i>,
    tag: Seq<char>,
) -> Seq<TileView>
    decreases visible.len(),
{
    if visible.len() == 0 {
        Seq::empty()
    } else {
        let prev = visible_tiles_with_tag(chunks, visible.drop_last(), tag);
        if has_chunk_at(chunks, visible.last()) {
            prev + crate::chunk::tiles_with_tag(
                chunks[chunk_index_of(chunks, visible.last())].tiles,
                tag,
            )
        } else {
            prev
        }
    }
}

} // verus!
