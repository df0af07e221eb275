//! The laws of the core, each stated over the spec functions the public
//! contracts use and proved once and for all.

use vstd::prelude::*;

verus! {

use vstd::utf8::encode_utf8;

use crate::chunk::{
    chunk_object_blobs,
    chunk_tile_blobs,
    chunk_view_wf,
    spec_chunk_visible,
    spec_deser_chunk,
    spec_deser_object_list,
    spec_deser_tile_list,
    spec_enc_chunk,
    spec_parse_chunk_rec,
    ChunkDataView,
    ChunkView,
};
use crate::codec::{
    lemma_blob_list_roundtrip,
    lemma_object_rec_roundtrip,
    lemma_tile_rec_roundtrip,
    lemma_u64_field_roundtrip,
    spec_deser_object,
    spec_deser_tile,
    spec_enc_blob_list,
    spec_enc_i64,
    spec_enc_object_rec,
    spec_enc_tile_rec,
    spec_enc_u64,
    spec_object_proto,
    spec_tile_proto,
    CHUNK_KIND,
};
use crate::geom::{spec_chunk_coord, Vec2i};
use crate::object::{
    object_record_of,
    object_view_wf,
    spec_approaching,
    spec_collision_response,
    spec_will_collide,
    ObjectView,
};
use crate::tile::{has_proto_tag, tile_record_of, tile_view_wf, TileView};
use crate::world::{
    chunk_index_of,
    chunk_updated_rel,
    collide_from,
    has_chunk_at,
    objects_bound_for,
    pending_of,
    spec_collide_all,
    spec_collide_phase,
    spec_migrate_chunk,
    spec_migrate_phase,
};
use crate::object::has_object_tag;
use crate::{CHUNK_COORD_LIMIT, CHUNK_PIXELS};

/// Prototypes registered under distinct tags are distinct values, each
/// carrying its own tag: the instances cloned from them start independent.
pub proof fn lemma_distinct_prototypes(reg: Seq<TileView>, t1: Seq<char>, t2: Seq<char>)
    requires
        forall|a: int, b: int| 0 <= a < b < reg.len() ==> reg[a].tag != reg[b].tag,
        has_proto_tag(reg, t1),
        has_proto_tag(reg, t2),
        t1 != t2,
    ensures
        spec_tile_proto(reg, t1).tag == t1,
        spec_tile_proto(reg, t2).tag == t2,
        spec_tile_proto(reg, t1) != spec_tile_proto(reg, t2),
{
    let i1 = choose|i: int| 0 <= i < reg.len() && reg[i].tag == t1;
    let i2 = choose|i: int| 0 <= i < reg.len() && reg[i].tag == t2;
    crate::codec::lemma_tile_proto_unique(reg, t1, i1);
    crate::codec::lemma_tile_proto_unique(reg, t2, i2);
}

/// Adding a chunk at an occupied coordinate changes nothing, so the first
/// chunk added at a coordinate keeps its contents.
pub proof fn lemma_add_chunk_first_wins(chunks: Seq<ChunkView>, c1: ChunkView, c2: ChunkView)
    requires
        forall|a: int, b: int| 0 <= a < b < chunks.len() ==> chunks[a].pos != chunks[b].pos,
        !has_chunk_at(chunks, c1.pos),
        c2.pos == c1.pos,
    ensures
        has_chunk_at(chunks.push(c1), c2.pos),
        chunks.push(c1)[chunk_index_of(chunks.push(c1), c2.pos)] == c1,
{
    let s1 = chunks.push(c1);
    assert(s1[s1.len() - 1] == c1);
    assert(has_chunk_at(s1, c2.pos));
    let j = chunk_index_of(s1, c2.pos);
    assert(0 <= j < s1.len() && s1[j].pos == c2.pos);
    if j < s1.len() - 1 {
        assert(chunks[j].pos == c1.pos);
        assert(has_chunk_at(chunks, c1.pos));
    }
}

/// A serialized tile reconstructs through a registry holding its tag with
/// the same tag, position and size.
pub proof fn lemma_tile_roundtrip(reg: Seq<TileView>, t: TileView)
    requires
        tile_view_wf(t),
        has_proto_tag(reg, t.tag),
        encode_utf8(t.tag).len() <= u64::MAX,
    ensures
        spec_deser_tile(reg, spec_enc_tile_rec(tile_record_of(t))) == Ok::<
            TileView,
            crate::WorldError,
        >(
            TileView {
                tag: t.tag,
                pos: t.pos,
                size: t.size,
                texture: spec_tile_proto(reg, t.tag).texture,
            },
        ),
{
    lemma_tile_rec_roundtrip(tile_record_of(t));
}

/// A serialized object reconstructs through a registry holding its tag
/// with the same tag, position, size and velocity.
pub proof fn lemma_object_roundtrip(reg: Seq<ObjectView>, o: ObjectView)
    requires
        object_view_wf(o),
        has_object_tag(reg, o.tag),
        encode_utf8(o.tag).len() <= u64::MAX,
    ensures
        spec_deser_object(reg, spec_enc_object_rec(object_record_of(o))) == Ok::<
            ObjectView,
            crate::WorldError,
        >(
            ObjectView {
                tag: o.tag,
                pos: o.pos,
                size: o.size,
                velocity: o.velocity,
                texture: spec_object_proto(reg, o.tag).texture,
            },
        ),
{
    lemma_object_rec_roundtrip(object_record_of(o));
}

/// Reconstructing the records of a tile list through a registry holding
/// every tag yields the record-limited tiles in order.
pub proof fn lemma_tile_list_roundtrip(reg: Seq<TileView>, tiles: Seq<TileView>)
    requires
        forall|i: int| 0 <= i < tiles.len() ==> tile_view_wf(#[trigger] tiles[i]),
        forall|i: int| 0 <= i < tiles.len() ==> has_proto_tag(reg, (#[trigger] tiles[i]).tag),
        forall|i: int|
            0 <= i < tiles.len() ==> encode_utf8((#[trigger] tiles[i]).tag).len() <= u64::MAX,
    ensures
        spec_deser_tile_list(
            reg,
            tiles.map_values(|t: TileView| spec_enc_tile_rec(tile_record_of(t))),
        ) == Ok::<Seq<TileView>, crate::WorldError>(
            Seq::new(
                tiles.len(),
                |i: int|
                    TileView {
                        tag: tiles[i].tag,
                        pos: tiles[i].pos,
                        size: tiles[i].size,
                        texture: spec_tile_proto(reg, tiles[i].tag).texture,
                    },
            ),
        ),
    decreases tiles.len(),
{
    let blobs = tiles.map_values(|t: TileView| spec_enc_tile_rec(tile_record_of(t)));
    if tiles.len() == 0 {
        assert(blobs =~= Seq::<Seq<u8>>::empty());
        assert(Seq::new(
            tiles.len(),
            |i: int|
                TileView {
                    tag: tiles[i].tag,
                    pos: tiles[i].pos,
                    size: tiles[i].size,
                    texture: spec_tile_proto(reg, tiles[i].tag).texture,
                },
        ) =~= Seq::<TileView>::empty());
    } else {
        let prefix = tiles.drop_last();
        assert(forall|i: int| 0 <= i < prefix.len() ==> tile_view_wf(#[trigger] prefix[i]));
        assert(forall|i: int|
            0 <= i < prefix.len() ==> has_proto_tag(reg, (#[trigger] prefix[i]).tag));
        assert(forall|i: int|
            0 <= i < prefix.len() ==> encode_utf8((#[trigger] prefix[i]).tag).len() <= u64::MAX);
        lemma_tile_list_roundtrip(reg, prefix);
        assert(blobs.drop_last() =~= prefix.map_values(
            |t: TileView| spec_enc_tile_rec(tile_record_of(t)),
        ));
        assert(blobs.last() == spec_enc_tile_rec(tile_record_of(tiles.last())));
        lemma_tile_roundtrip(reg, tiles.last());
        assert(Seq::new(
            tiles.len(),
            |i: int|
                TileView {
                    tag: tiles[i].tag,
                    pos: tiles[i].pos,
                    size: tiles[i].size,
                    texture: spec_tile_proto(reg, tiles[i].tag).texture,
                },
        ) =~= Seq::new(
            prefix.len(),
            |i: int|
                TileView {
                    tag: prefix[i].tag,
                    pos: prefix[i].pos,
                    size: prefix[i].size,
                    texture: spec_tile_proto(reg, prefix[i].tag).texture,
                },
        ).push(
            TileView {
                tag: tiles.last().tag,
                pos: tiles.last().pos,
                size: tiles.last().size,
                texture: spec_tile_proto(reg, tiles.last().tag).texture,
            },
        ));
    }
}

/// Reconstructing the records of an object list through a registry holding
/// every tag yields the record-limited objects in order.
pub proof fn lemma_object_list_roundtrip(reg: Seq<ObjectView>, objects: Seq<ObjectView>)
    requires
        forall|i: int| 0 <= i < objects.len() ==> object_view_wf(#[trigger] objects[i]),
        forall|i: int| 0 <= i < objects.len() ==> has_object_tag(reg, (#[trigger] objects[i]).tag),
        forall|i: int|
            0 <= i < objects.len() ==> encode_utf8((#[trigger] objects[i]).tag).len() <= u64::MAX,
    ensures
        spec_deser_object_list(
            reg,
            objects.map_values(|o: ObjectView| spec_enc_object_rec(object_record_of(o))),
        ) == Ok::<Seq<ObjectView>, crate::WorldError>(
            Seq::new(
                objects.len(),
                |i: int|
                    ObjectView {
                        tag: objects[i].tag,
                        pos: objects[i].pos,
                        size: objects[i].size,
                        velocity: objects[i].velocity,
                        texture: spec_object_proto(reg, objects[i].tag).texture,
                    },
            ),
        ),
    decreases objects.len(),
{
    let blobs = objects.map_values(|o: ObjectView| spec_enc_object_rec(object_record_of(o)));
    if objects.len() == 0 {
        assert(blobs =~= Seq::<Seq<u8>>::empty());
        assert(Seq::new(
            objects.len(),
            |i: int|
                ObjectView {
                    tag: objects[i].tag,
                    pos: objects[i].pos,
                    size: objects[i].size,
                    velocity: objects[i].velocity,
                    texture: spec_object_proto(reg, objects[i].tag).texture,
                },
        ) =~= Seq::<ObjectView>::empty());
    } else {
        let prefix = objects.drop_last();
        assert(forall|i: int| 0 <= i < prefix.len() ==> object_view_wf(#[trigger] prefix[i]));
        assert(forall|i: int|
            0 <= i < prefix.len() ==> has_object_tag(reg, (#[trigger] prefix[i]).tag));
        assert(forall|i: int|
            0 <= i < prefix.len() ==> encode_utf8((#[trigger] prefix[i]).tag).len() <= u64::MAX);
        lemma_object_list_roundtrip(reg, prefix);
        assert(blobs.drop_last() =~= prefix.map_values(
            |o: ObjectView| spec_enc_object_rec(object_record_of(o)),
        ));
        assert(blobs.last() == spec_enc_object_rec(object_record_of(objects.last())));
        lemma_object_roundtrip(reg, objects.last());
        assert(Seq::new(
            objects.len(),
            |i: int|
                ObjectView {
                    tag: objects[i].tag,
                    pos: objects[i].pos,
                    size: objects[i].size,
                    velocity: objects[i].velocity,
                    texture: spec_object_proto(reg, objects[i].tag).texture,
                },
        ) =~= Seq::new(
            prefix.len(),
            |i: int|
                ObjectView {
                    tag: prefix[i].tag,
                    pos: prefix[i].pos,
                    size: prefix[i].size,
                    velocity: prefix[i].velocity,
                    texture: spec_object_proto(reg, prefix[i].tag).texture,
                },
        ).push(
            ObjectView {
                tag: objects.last().tag,
                pos: objects.last().pos,
                size: objects.last().size,
                velocity: objects.last().velocity,
                texture: spec_object_proto(reg, objects.last().tag).texture,
            },
        ));
    }
}

/// A serialized chunk reconstructs through registries holding every member
/// tag with the same coordinate and the same count and order of tiles and
/// objects, each member carrying its record-limited fields.
pub proof fn lemma_chunk_roundtrip(treg: Seq<TileView>, oreg: Seq<ObjectView>, c: ChunkView)
    requires
        chunk_view_wf(c),
        c.tiles.len() <= u64::MAX,
        c.objects.len() <= u64::MAX,
        forall|i: int| 0 <= i < c.tiles.len() ==> has_proto_tag(treg, (#[trigger] c.tiles[i]).tag),
        forall|i: int|
            0 <= i < c.objects.len() ==> has_object_tag(oreg, (#[trigger] c.objects[i]).tag),
        forall|i: int|
            0 <= i < c.tiles.len() ==> encode_utf8((#[trigger] c.tiles[i]).tag).len()
                <= 0xffff_ffff,
        forall|i: int|
            0 <= i < c.objects.len() ==> encode_utf8((#[trigger] c.objects[i]).tag).len()
                <= 0xffff_ffff,
    ensures
        spec_deser_chunk(treg, oreg, spec_enc_chunk(c)) == Ok::<ChunkView, crate::WorldError>(
            ChunkView {
                tiles: Seq::new(
                    c.tiles.len(),
                    |i: int|
                        TileView {
                            tag: c.tiles[i].tag,
                            pos: c.tiles[i].pos,
                            size: c.tiles[i].size,
                            texture: spec_tile_proto(treg, c.tiles[i].tag).texture,
                        },
                ),
                objects: Seq::new(
                    c.objects.len(),
                    |i: int|
                        ObjectView {
                            tag: c.objects[i].tag,
                            pos: c.objects[i].pos,
                            size: c.objects[i].size,
                            velocity: c.objects[i].velocity,
                            texture: spec_object_proto(oreg, c.objects[i].tag).texture,
                        },
                ),
                pos: c.pos,
                bounds_min: c.bounds_min,
                bounds_max: c.bounds_max,
                visible_tiles: Seq::empty(),
                active_objects: Seq::empty(),
            },
        ),
{
    lemma_u64_field_roundtrip();
    vstd::bytes::lemma_auto_spec_u64_to_from_le_bytes();
    let e = spec_enc_chunk(c);
    let tb = chunk_tile_blobs(c);
    let ob = chunk_object_blobs(c);
    let members = tb + ob;
    assert forall|i: int| 0 <= i < members.len() implies (#[trigger] members[i]).len()
        <= u64::MAX by {
        if i < tb.len() {
            assert(members[i] == spec_enc_tile_rec(tile_record_of(c.tiles[i])));
            assert(members[i].len() == 41 + encode_utf8(c.tiles[i].tag).len());
        } else {
            assert(members[i] == spec_enc_object_rec(
                object_record_of(c.objects[i - tb.len()]),
            ));
            assert(members[i].len() == 57 + encode_utf8(c.objects[i - tb.len()].tag).len());
        }
    }
    lemma_blob_list_roundtrip(members);
    let body = spec_enc_blob_list(members);
    assert(e.len() == 33 + body.len());
    assert(e[0] == CHUNK_KIND);
    assert(e.subrange(1, 9) =~= spec_enc_i64(c.pos.x));
    assert(e.subrange(9, 17) =~= spec_enc_i64(c.pos.y));
    assert(e.subrange(17, 25) =~= spec_enc_u64(c.tiles.len() as u64));
    assert(e.subrange(25, 33) =~= spec_enc_u64(c.objects.len() as u64));
    assert(e.subrange(33, e.len() as int) =~= body);
    assert(spec_parse_chunk_rec(e) == Some(
        ChunkDataView {
            pos: c.pos,
            tiles: members.take(c.tiles.len() as int),
            objects: members.skip(c.tiles.len() as int),
        },
    ));
    assert(members.take(c.tiles.len() as int) =~= tb);
    assert(members.skip(c.tiles.len() as int) =~= ob);
    lemma_tile_list_roundtrip(treg, c.tiles);
    lemma_object_list_roundtrip(oreg, c.objects);
}

/// After the migration pass, every object of a chunk at a visible
/// coordinate maps back to that chunk's coordinate: no visible chunk holds
/// an object whose position belongs elsewhere.
pub proof fn lemma_migration_consistency(
    chunks: Seq<ChunkView>,
    visible: Seq<Vec2i>,
    i: int,
    j: int,
)
    requires
        0 <= i < chunks.len(),
        visible.contains(chunks[i].pos),
        0 <= j < spec_migrate_chunk(chunks[i], visible, pending_of(chunks, visible)).objects.len(),
    ensures
        spec_chunk_coord(
            spec_migrate_chunk(chunks[i], visible, pending_of(chunks, visible)).objects[j].pos,
        ) == chunks[i].pos,
{
    let pending = pending_of(chunks, visible);
    let m = spec_migrate_chunk(chunks[i], visible, pending);
    let base = objects_bound_for(chunks[i].objects, chunks[i].pos);
    let arr = objects_bound_for(pending, chunks[i].pos);
    lemma_bound_for_coord(chunks[i].objects, chunks[i].pos);
    lemma_bound_for_coord(pending, chunks[i].pos);
    assert(m.objects == base + arr);
    if j < base.len() {
        assert(m.objects[j] == base[j]);
    } else {
        assert(m.objects[j] == arr[j - base.len()]);
    }
}

/// Every object selected by destination maps to that destination.
pub proof fn lemma_bound_for_coord(s: Seq<ObjectView>, coord: Vec2i)
    ensures
        forall|q: int|
            0 <= q < objects_bound_for(s, coord).len() ==> spec_chunk_coord(
                (#[trigger] objects_bound_for(s, coord)[q]).pos,
            ) == coord,
    decreases s.len(),
{
    if s.len() == 0 {
    } else {
        lemma_bound_for_coord(s.drop_last(), coord);
        let pre = objects_bound_for(s.drop_last(), coord);
        assert forall|q: int|
            0 <= q < objects_bound_for(s, coord).len() implies spec_chunk_coord(
            (#[trigger] objects_bound_for(s, coord)[q]).pos,
        ) == coord by {
            if spec_chunk_coord(s.last().pos) == coord {
                if q < pre.len() {
                    assert(objects_bound_for(s, coord)[q] == pre[q]);
                } else {
                    assert(objects_bound_for(s, coord)[q] == s.last());
                }
            } else {
                assert(objects_bound_for(s, coord)[q] == pre[q]);
            }
        }
    }
}

/// For a pair of objects, the collision pass touches both exactly when the
/// pair both will collide and is approaching, each receiving the default
/// response against the other's prior state; otherwise it touches neither.
pub proof fn lemma_collision_pair_symmetry(s: Seq<ObjectView>)
    requires
        s.len() == 2,
    ensures
        spec_will_collide(s[0], s[1]) && spec_approaching(s[0], s[1]) ==> spec_collide_all(s)
            =~= seq![
            spec_collision_response(s[0], s[1]),
            spec_collision_response(s[1], s[0]),
        ],
        !(spec_will_collide(s[0], s[1]) && spec_approaching(s[0], s[1])) ==> spec_collide_all(s)
            == s,
{
    let s1 = crate::world::collide_once(s, 0, 1);
    assert(spec_collide_all(s) == collide_from(s, 0, 1));
    assert(collide_from(s, 0, 1) == collide_from(s1, 0, 2));
    assert(collide_from(s1, 0, 2) == collide_from(s1, 1, 2));
    assert(collide_from(s1, 1, 2) == s1);
    if spec_will_collide(s[0], s[1]) && spec_approaching(s[0], s[1]) {
        assert(s1 =~= seq![
            spec_collision_response(s[0], s[1]),
            spec_collision_response(s[1], s[0]),
        ]);
    }
}

/// With a zero-extent viewport, a chunk is visible exactly when the camera
/// point lies on or inside its bounding box.
pub proof fn lemma_zero_viewport_visibility(c: ChunkView, camera: Vec2i)
    ensures
        spec_chunk_visible(c, camera, Vec2i { x: 0, y: 0 }) == (c.bounds_min.x <= camera.x
            <= c.bounds_max.x && c.bounds_min.y <= camera.y <= c.bounds_max.y),
{
}

/// Every object selected by destination comes from the source list.
pub proof fn lemma_bound_for_from(s: Seq<ObjectView>, coord: Vec2i)
    ensures
        forall|q: int|
            0 <= q < objects_bound_for(s, coord).len() ==> exists|p: int|
                0 <= p < s.len() && #[trigger] objects_bound_for(s, coord)[q] == s[p],
    decreases s.len(),
{
    if s.len() == 0 {
    } else {
        lemma_bound_for_from(s.drop_last(), coord);
        let pre = objects_bound_for(s.drop_last(), coord);
        assert forall|q: int|
            0 <= q < objects_bound_for(s, coord).len() implies exists|p: int|
            0 <= p < s.len() && #[trigger] objects_bound_for(s, coord)[q] == s[p] by {
            if q < pre.len() {
                assert(objects_bound_for(s, coord)[q] == pre[q]);
                let p0 = choose|p: int| 0 <= p < s.drop_last().len() && pre[q] == s.drop_last()[p];
                assert(objects_bound_for(s, coord)[q] == s[p0]);
            } else {
                assert(objects_bound_for(s, coord)[q] == s[s.len() - 1]);
            }
        }
    }
}

/// Every object selected by departure comes from the source list.
pub proof fn lemma_leaving_from(s: Seq<ObjectView>, coord: Vec2i)
    ensures
        forall|q: int|
            0 <= q < crate::world::objects_leaving(s, coord).len() ==> exists|p: int|
                0 <= p < s.len() && #[trigger] crate::world::objects_leaving(s, coord)[q] == s[p],
    decreases s.len(),
{
    let lv = crate::world::objects_leaving(s, coord);
    if s.len() == 0 {
    } else {
        lemma_leaving_from(s.drop_last(), coord);
        let pre = crate::world::objects_leaving(s.drop_last(), coord);
        assert forall|q: int|
            0 <= q < lv.len() implies exists|p: int|
            0 <= p < s.len() && #[trigger] lv[q] == s[p] by {
            if q < pre.len() {
                assert(lv[q] == pre[q]);
                let p0 = choose|p: int| 0 <= p < s.drop_last().len() && pre[q] == s.drop_last()[p];
                assert(lv[q] == s[p0]);
            } else {
                assert(lv[q] == s[s.len() - 1]);
            }
        }
    }
}

/// True when every object of every chunk is at rest.
pub open spec fn world_at_rest(chunks: Seq<ChunkView>) -> bool {
    forall|c: int, o: int|
        0 <= c < chunks.len() && 0 <= o < chunks[c].objects.len() ==> (
        #[trigger] chunks[c].objects[o]).velocity == (Vec2i { x: 0, y: 0 })
}

/// Every object of the migration backlog is at rest when the world is.
pub proof fn lemma_pending_at_rest(chunks: Seq<ChunkView>, visible: Seq<Vec2i>)
    requires
        world_at_rest(chunks),
    ensures
        forall|q: int|
            0 <= q < pending_of(chunks, visible).len() ==> (#[trigger] pending_of(
                chunks,
                visible,
            )[q]).velocity == (Vec2i { x: 0, y: 0 }),
    decreases visible.len(),
{
    if visible.len() == 0 {
    } else {
        lemma_pending_at_rest(chunks, visible.drop_last());
        let prev = pending_of(chunks, visible.drop_last());
        if has_chunk_at(chunks, visible.last()) {
            let ci = chunk_index_of(chunks, visible.last());
            lemma_leaving_from(chunks[ci].objects, visible.last());
            let lv = crate::world::objects_leaving(chunks[ci].objects, visible.last());
            assert forall|q: int|
                0 <= q < pending_of(chunks, visible).len() implies (#[trigger] pending_of(
                chunks,
                visible,
            )[q]).velocity == (Vec2i { x: 0, y: 0 }) by {
                if q < prev.len() {
                    assert(pending_of(chunks, visible)[q] == prev[q]);
                } else {
                    assert(pending_of(chunks, visible)[q] == lv[q - prev.len()]);
                    let p0 = choose|p: int|
                        0 <= p < chunks[ci].objects.len() && lv[q - prev.len()] == chunks[
                            ci
                        ].objects[p];
                    assert(lv[q - prev.len()] == chunks[ci].objects[p0]);
                }
            }
        }
    }
}

/// A pairwise response leaves an object at rest when it was at rest, so
/// the whole collision pass keeps a resting list at rest, and never moves
/// anything.
pub proof fn lemma_collide_from_at_rest(s: Seq<ObjectView>, i: nat, j: nat)
    requires
        forall|q: int| 0 <= q < s.len() ==> (#[trigger] s[q]).velocity == (Vec2i { x: 0, y: 0 }),
    ensures
        collide_from(s, i, j).len() == s.len(),
        forall|q: int|
            0 <= q < s.len() ==> (#[trigger] collide_from(s, i, j)[q]).velocity == (Vec2i {
                x: 0,
                y: 0,
            }),
        forall|q: int|
            0 <= q < s.len() ==> (#[trigger] collide_from(s, i, j)[q]).pos == s[q].pos,
    decreases s.len() - i, s.len() - j,
{
    if i + 1 >= s.len() {
    } else if j >= s.len() {
        lemma_collide_from_at_rest(s, i + 1, i + 2);
    } else if j <= i {
    } else {
        let s1 = crate::world::collide_once(s, i as int, j as int);
        assert(s1.len() == s.len());
        assert(forall|q: int|
            0 <= q < s1.len() ==> (#[trigger] s1[q]).velocity == (Vec2i { x: 0, y: 0 }));
        assert(forall|q: int| 0 <= q < s1.len() ==> (#[trigger] s1[q]).pos == s[q].pos);
        lemma_collide_from_at_rest(s1, i, j + 1);
    }
}

/// A prefix of the window drains a prefix of the flat working list.
pub proof fn lemma_flat_prefix_eq(chunks: Seq<ChunkView>, visible: Seq<Vec2i>, m: int)
    requires
        0 <= m <= visible.len(),
    ensures
        crate::world::flat_objects_of(chunks, visible.take(m)) == crate::world::flat_objects_of(
            chunks,
            visible,
        ).take(crate::world::flat_objects_of(chunks, visible.take(m)).len() as int),
    decreases visible.len() - m,
{
    let full = crate::world::flat_objects_of(chunks, visible);
    let part = crate::world::flat_objects_of(chunks, visible.take(m));
    if m == visible.len() {
        assert(visible.take(m) =~= visible);
        assert(part =~= full.take(part.len() as int));
    } else {
        lemma_flat_prefix_eq(chunks, visible.take(visible.len() - 1), m);
        assert(visible.take(visible.len() - 1).take(m) =~= visible.take(m));
        assert(visible.drop_last() =~= visible.take(visible.len() - 1));
        let shorter = crate::world::flat_objects_of(chunks, visible.take(visible.len() - 1));
        assert(part == shorter.take(part.len() as int));
        crate::world::lemma_flat_prefix_len(chunks, visible.take(visible.len() - 1), m);
        assert(part.len() <= shorter.len());
        assert(shorter =~= full.take(shorter.len() as int)) by {
            if has_chunk_at(chunks, visible.last()) {
                assert(full == shorter + chunks[chunk_index_of(chunks, visible.last())].objects);
            } else {
                assert(full == shorter);
                assert(full.take(shorter.len() as int) =~= shorter);
            }
        };
        assert(part =~= full.take(part.len() as int));
    }
}

/// In a world at rest, one frame leaves every object of every chunk in the
/// visible window stored under exactly the chunk coordinate its position
/// maps to: migration has put each object where it belongs, and neither
/// the collision pass nor the tick moves a resting object.
pub proof fn lemma_update_settles_resting_world(
    chunks: Seq<ChunkView>,
    visible: Seq<Vec2i>,
    post: Seq<ChunkView>,
    camera: Vec2i,
    screen: Vec2i,
    i: int,
    j: int,
)
    requires
        forall|a: int, b: int| 0 <= a < b < chunks.len() ==> chunks[a].pos != chunks[b].pos,
        forall|a: int, b: int| 0 <= a < b < visible.len() ==> visible[a] != visible[b],
        world_at_rest(chunks),
        post.len() == spec_collide_phase(spec_migrate_phase(chunks, visible), visible).len(),
        (if visible.contains(
            spec_collide_phase(spec_migrate_phase(chunks, visible), visible)[i].pos,
        ) {
            chunk_updated_rel(
                spec_collide_phase(spec_migrate_phase(chunks, visible), visible)[i],
                post[i],
                camera,
                screen,
            )
        } else {
            post[i] == spec_collide_phase(spec_migrate_phase(chunks, visible), visible)[i]
        }),
        0 <= i < chunks.len(),
        visible.contains(chunks[i].pos),
        0 <= j < post[i].objects.len(),
    ensures
        spec_chunk_coord(post[i].objects[j].pos) == chunks[i].pos,
{
    let w1 = spec_migrate_phase(chunks, visible);
    let w2 = spec_collide_phase(w1, visible);
    let pending = pending_of(chunks, visible);
    assert(w1[i] == spec_migrate_chunk(chunks[i], visible, pending));
    assert(w1[i].pos == chunks[i].pos);
    assert forall|a: int, b: int| 0 <= a < b < w1.len() implies w1[a].pos != w1[b].pos by {
        assert(chunks[a].pos != chunks[b].pos);
    }
    // the migrated chunk holds only objects that map to it, all at rest
    assert forall|q: int|
        0 <= q < w1[i].objects.len() implies spec_chunk_coord(#[trigger] w1[i].objects[q].pos)
        == chunks[i].pos && w1[i].objects[q].velocity == (Vec2i { x: 0, y: 0 }) by {
        lemma_migration_consistency(chunks, visible, i, q);
        let base = objects_bound_for(chunks[i].objects, chunks[i].pos);
        let arr = objects_bound_for(pending, chunks[i].pos);
        lemma_bound_for_from(chunks[i].objects, chunks[i].pos);
        lemma_bound_for_from(pending, chunks[i].pos);
        lemma_pending_at_rest(chunks, visible);
        if q < base.len() {
            assert(w1[i].objects[q] == base[q]);
            let p0 = choose|p: int|
                0 <= p < chunks[i].objects.len() && base[q] == chunks[i].objects[p];
            assert(base[q] == chunks[i].objects[p0]);
        } else {
            assert(w1[i].objects[q] == arr[q - base.len()]);
            let p0 = choose|p: int| 0 <= p < pending.len() && arr[q - base.len()] == pending[p];
            assert(arr[q - base.len()] == pending[p0]);
        }
    }
    lemma_migrate_phase_at_rest(chunks, visible);
    // the collision pass keeps positions and rest
    let flat = crate::world::flat_objects_of(w1, visible);
    let resolved = spec_collide_all(flat);
    lemma_collide_from_at_rest_entry(w1, visible);
    let kk = choose|kk: int| 0 <= kk < visible.len() && visible[kk] == w1[i].pos;
    assert(visible.contains(w1[i].pos)) by {
        let kx = choose|kx: int| 0 <= kx < visible.len() && visible[kx] == chunks[i].pos;
        assert(visible[kx] == w1[i].pos);
    };
    let off = crate::world::flat_objects_of(w1, visible.take(kk)).len() as int;
    assert(w2[i] == (ChunkView {
        objects: resolved.subrange(off, off + w1[i].objects.len() as int),
        ..w1[i]
    }));
    crate::world::lemma_chunk_index_unique(w1, w1[i].pos, i);
    assert(visible.take(kk + 1).drop_last() =~= visible.take(kk));
    assert(visible.take(kk + 1).last() == visible[kk]);
    assert(has_chunk_at(w1, visible[kk])) by {
        assert(w1[i].pos == visible[kk]);
    };
    assert(crate::world::flat_objects_of(w1, visible.take(kk + 1))
        == crate::world::flat_objects_of(w1, visible.take(kk)) + w1[i].objects);
    crate::world::lemma_flat_prefix_len(w1, visible, kk + 1);
    lemma_flat_prefix_eq(w1, visible, kk + 1);
    let pre1 = crate::world::flat_objects_of(w1, visible.take(kk + 1));
    assert(pre1 == flat.take(pre1.len() as int));
    assert(pre1.len() == off + w1[i].objects.len());
    assert forall|q: int|
        0 <= q < w2[i].objects.len() implies spec_chunk_coord(#[trigger] w2[i].objects[q].pos)
        == chunks[i].pos && w2[i].objects[q].velocity == (Vec2i { x: 0, y: 0 }) by {
        assert(w2[i].objects[q] == resolved[off + q]);
        assert(pre1[off + q] == w1[i].objects[q]);
        assert(flat.take(pre1.len() as int)[off + q] == flat[off + q]);
        assert(flat[off + q] == w1[i].objects[q]);
        assert(resolved[off + q].pos == flat[off + q].pos);
        assert(resolved[off + q].velocity == (Vec2i { x: 0, y: 0 }));
    }
    // the tick leaves a resting object where it stands
    if visible.contains(w2[i].pos) {
        if !spec_chunk_visible(w2[i], camera, screen) {
            assert(post[i] == w2[i]);
        } else {
            assert forall|q: int|
                0 <= q < post[i].objects.len() implies spec_chunk_coord(
                #[trigger] post[i].objects[q].pos,
            ) == chunks[i].pos by {
                if crate::chunk::spec_object_active(w2[i], camera, screen, q) {
                    assert(post[i].objects[q] == crate::object::stepped(w2[i].objects[q]));
                    assert(post[i].objects[q].pos == w2[i].objects[q].pos);
                } else {
                    assert(post[i].objects[q] == w2[i].objects[q]);
                }
            }
        }
    } else {
        assert(w2[i].pos == chunks[i].pos);
    }
}

/// The flat working list of a resting world is at rest.
pub proof fn lemma_collide_from_at_rest_entry(chunks: Seq<ChunkView>, visible: Seq<Vec2i>)
    requires
        world_at_rest(chunks),
    ensures
        forall|q: int|
            0 <= q < spec_collide_all(
                crate::world::flat_objects_of(chunks, visible),
            ).len() ==> ((#[trigger] spec_collide_all(
                crate::world::flat_objects_of(chunks, visible),
            )[q]).velocity == (Vec2i { x: 0, y: 0 }) && spec_collide_all(
                crate::world::flat_objects_of(chunks, visible),
            )[q].pos == crate::world::flat_objects_of(chunks, visible)[q].pos),
        spec_collide_all(crate::world::flat_objects_of(chunks, visible)).len()
            == crate::world::flat_objects_of(chunks, visible).len(),
    decreases visible.len(),
{
    lemma_flat_at_rest(chunks, visible);
    lemma_collide_from_at_rest(crate::world::flat_objects_of(chunks, visible), 0, 1);
}

/// The flat working list of a resting world is at rest, member by member.
pub proof fn lemma_flat_at_rest(chunks: Seq<ChunkView>, visible: Seq<Vec2i>)
    requires
        world_at_rest(chunks),
    ensures
        forall|q: int|
            0 <= q < crate::world::flat_objects_of(chunks, visible).len() ==> (
            #[trigger] crate::world::flat_objects_of(chunks, visible)[q]).velocity == (Vec2i {
                x: 0,
                y: 0,
            }),
    decreases visible.len(),
{
    if visible.len() == 0 {
    } else {
        lemma_flat_at_rest(chunks, visible.drop_last());
        let prev = crate::world::flat_objects_of(chunks, visible.drop_last());
        if has_chunk_at(chunks, visible.last()) {
            let ci = chunk_index_of(chunks, visible.last());
            assert forall|q: int|
                0 <= q < crate::world::flat_objects_of(chunks, visible).len() implies (
            #[trigger] crate::world::flat_objects_of(chunks, visible)[q]).velocity == (Vec2i {
                x: 0,
                y: 0,
            }) by {
                assert(crate::world::flat_objects_of(chunks, visible) == prev + chunks[
                    ci
                ].objects);
                if q < prev.len() {
                    assert(crate::world::flat_objects_of(chunks, visible)[q] == prev[q]);
                } else {
                    assert(crate::world::flat_objects_of(chunks, visible)[q] == chunks[
                        ci
                    ].objects[q - prev.len()]);
                }
            }
        }
    }
}

/// The migration pass of a resting world leaves every chunk at rest.
pub proof fn lemma_migrate_phase_at_rest(chunks: Seq<ChunkView>, visible: Seq<Vec2i>)
    requires
        world_at_rest(chunks),
    ensures
        world_at_rest(spec_migrate_phase(chunks, visible)),
{
    let w1 = spec_migrate_phase(chunks, visible);
    let pending = pending_of(chunks, visible);
    assert forall|c: int, o: int|
        0 <= c < w1.len() && 0 <= o < w1[c].objects.len() implies (
    #[trigger] w1[c].objects[o]).velocity == (Vec2i { x: 0, y: 0 }) by {
        let base = if visible.contains(chunks[c].pos) {
            objects_bound_for(chunks[c].objects, chunks[c].pos)
        } else {
            chunks[c].objects
        };
        let arr = objects_bound_for(pending, chunks[c].pos);
        assert(w1[c].objects == base + arr);
        lemma_bound_for_from(chunks[c].objects, chunks[c].pos);
        lemma_bound_for_from(pending, chunks[c].pos);
        lemma_pending_at_rest(chunks, visible);
        if o < base.len() {
            assert(w1[c].objects[o] == base[o]);
            if visible.contains(chunks[c].pos) {
                let p0 = choose|p: int|
                    0 <= p < chunks[c].objects.len() && base[o] == chunks[c].objects[p];
                assert(base[o] == chunks[c].objects[p0]);
            }
        } else {
            assert(w1[c].objects[o] == arr[o - base.len()]);
            let p0 = choose|p: int| 0 <= p < pending.len() && arr[o - base.len()] == pending[p];
            assert(arr[o - base.len()] == pending[p0]);
        }
    }
}

} // verus!
