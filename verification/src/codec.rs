//! The persisted record format.
//!
//! Records are byte strings.  Every integer field is a 64-bit little-endian
//! word; a signed value is stored biased by `2^63` so that the word order of
//! the bytes matches the value order.  A string is stored as its byte length
//! followed by its UTF-8 bytes, and a list of nested records as a count in
//! the enclosing header followed by length-prefixed members.  Each record
//! kind opens with a distinct kind byte.  Parsing accepts exactly the byte
//! strings the encoders produce, so encoding and parsing invert one another.

use vstd::prelude::*;

verus! {

use vstd::bytes::{
    lemma_auto_spec_u64_to_from_le_bytes,
    spec_u64_from_le_bytes,
    spec_u64_to_le_bytes,
    u64_from_le_bytes,
    u64_to_le_bytes,
};
use vstd::slice::slice_subrange;
use vstd::string::StringSliceAdditionalSpecFns;
use vstd::utf8::{decode_utf8, encode_utf8, valid_utf8};

use crate::{POS_LIMIT, SIZE_LIMIT, VEL_LIMIT};
use crate::geom::Vec2i;
use crate::object::{
    has_object_tag,
    object_data_wf,
    object_record_of,
    Object,
    ObjectData,
    ObjectDataView,
    ObjectRegistry,
    ObjectView,
    SerializableObject,
};
use crate::tile::{
    has_proto_tag,
    tile_data_wf,
    tile_record_of,
    SerializableTile,
    Tile,
    TileData,
    TileDataView,
    TileRegistry,
    TileView,
};

/// The bias that maps an `i64` onto the `u64` word stored for it.
pub const I64_BIAS: u64 = 0x8000_0000_0000_0000;

/// The `u64` word stored for the signed value `x`.
pub open spec fn i64_key(x: i64) -> u64 {
    (x as int + I64_BIAS as int) as u64
}

/// The signed value a stored `u64` word stands for.
pub open spec fn key_i64(v: u64) -> i64 {
    (v as int - I64_BIAS as int) as i64
}

/// The bytes of an unsigned field.
pub open spec fn spec_enc_u64(v: u64) -> Seq<u8> {
    spec_u64_to_le_bytes(v)
}

/// The bytes of a signed field.
pub open spec fn spec_enc_i64(x: i64) -> Seq<u8> {
    spec_u64_to_le_bytes(i64_key(x))
}

/// The bytes of a length-prefixed blob.
pub open spec fn spec_enc_blob(b: Seq<u8>) -> Seq<u8>
    recommends
        b.len() <= u64::MAX,
{
    spec_enc_u64(b.len() as u64) + b
}

/// The bytes of a length-prefixed string: its UTF-8 encoding as a blob.
pub open spec fn spec_enc_str(t: Seq<char>) -> Seq<u8> {
    spec_enc_blob(encode_utf8(t))
}

/// Appends the bytes of an unsigned field to `out`.
pub fn enc_u64_into(out: &mut Vec<u8>, v: u64)
    ensures
        final(out)@ == old(out)@ + spec_enc_u64(v),
{
    let mut b = u64_to_le_bytes(v);
    out.append(&mut b);
}

/// Appends the bytes of a signed field to `out`.
pub fn enc_i64_into(out: &mut Vec<u8>, x: i64)
    ensures
        final(out)@ == old(out)@ + spec_enc_i64(x),
{
    let k: u64 = ((x as i128) + (I64_BIAS as i128)) as u64;
    proof {
        assert(k == i64_key(x));
    }
    enc_u64_into(out, k);
}

/// Appends a length-prefixed string to `out`.
pub fn enc_str_into(out: &mut Vec<u8>, s: &str)
    ensures
        final(out)@ == old(out)@ + spec_enc_str(s@),
{
    let mut b = vstd::string::StrSliceExecFns::as_bytes_vec(s);
    let len = b.len();
    enc_u64_into(out, len as u64);
    out.append(&mut b);
    proof {
        assert(s.spec_bytes() == encode_utf8(s@));
        assert(out@ =~= old(out)@ + spec_enc_str(s@));
    }
}

/// Reads the unsigned field stored at `off`.
pub fn dec_u64_at(data: &[u8], off: usize) -> (v: u64)
    requires
        off + 8 <= data@.len(),
    ensures
        v == spec_u64_from_le_bytes(data@.subrange(off as int, off as int + 8)),
{
    let n = data.len();
    assert(off + 8 <= n);
    let s = slice_subrange(data, off, off + 8);
    u64_from_le_bytes(s)
}

/// Reads the signed field stored at `off`.
pub fn dec_i64_at(data: &[u8], off: usize) -> (x: i64)
    requires
        off + 8 <= data@.len(),
    ensures
        x == key_i64(spec_u64_from_le_bytes(data@.subrange(off as int, off as int + 8))),
{
    let v = dec_u64_at(data, off);
    ((v as i128) - (I64_BIAS as i128)) as i64
}

/// A field encodes back to the bytes it was read from.
pub proof fn lemma_u64_field_roundtrip()
    ensures
        forall|v: u64|
            {
                &&& (#[trigger] spec_enc_u64(v)).len() == 8
                &&& spec_u64_from_le_bytes(spec_enc_u64(v)) == v
            },
        forall|s: Seq<u8>|
            s.len() == 8 ==> spec_enc_u64(#[trigger] spec_u64_from_le_bytes(s)) == s,
{
    lemma_auto_spec_u64_to_from_le_bytes();
}


/// Kind byte opening a tile record.
pub const TILE_KIND: u8 = 84;

/// Kind byte opening an object record.
pub const OBJECT_KIND: u8 = 79;

/// Kind byte opening a chunk record.
pub const CHUNK_KIND: u8 = 67;

/// Kind byte opening a world metadata record.
pub const WORLD_KIND: u8 = 87;

/// The bytes of a tile record: kind byte, position, size, tag.
pub open spec fn spec_enc_tile_rec(r: TileDataView) -> Seq<u8> {
    seq![TILE_KIND] + spec_enc_i64(r.pos.x) + spec_enc_i64(r.pos.y) + spec_enc_i64(r.size.x)
        + spec_enc_i64(r.size.y) + spec_enc_str(r.tag)
}

/// The tile record encoded in `b`, when `b` is exactly such an encoding of
/// an in-bounds record.
pub open spec fn spec_parse_tile_rec(b: Seq<u8>) -> Option<TileDataView> {
    if b.len() < 41 {
        None
    } else if b[0] != TILE_KIND {
        None
    } else {
        let x = key_i64(spec_u64_from_le_bytes(b.subrange(1, 9)));
        let y = key_i64(spec_u64_from_le_bytes(b.subrange(9, 17)));
        let w = key_i64(spec_u64_from_le_bytes(b.subrange(17, 25)));
        let h = key_i64(spec_u64_from_le_bytes(b.subrange(25, 33)));
        let len = spec_u64_from_le_bytes(b.subrange(33, 41));
        if b.len() - 41 != len {
            None
        } else {
            let tb = b.subrange(41, b.len() as int);
            if !valid_utf8(tb) {
                None
            } else {
                let r = TileDataView {
                    tag: decode_utf8(tb),
                    pos: Vec2i { x, y },
                    size: Vec2i { x: w, y: h },
                };
                if tile_data_wf(r) {
                    Some(r)
                } else {
                    None
                }
            }
        }
    }
}

/// Parsing a tile record undoes encoding it.
pub proof fn lemma_tile_rec_roundtrip(r: TileDataView)
    requires
        tile_data_wf(r),
        encode_utf8(r.tag).len() <= u64::MAX,
    ensures
        spec_parse_tile_rec(spec_enc_tile_rec(r)) == Some(r),
{
    lemma_auto_spec_u64_to_from_le_bytes();
    broadcast use vstd::utf8::encode_utf8_decode_utf8;
    broadcast use vstd::utf8::encode_utf8_valid_utf8;

    let e = spec_enc_tile_rec(r);
    let tb = encode_utf8(r.tag);
    assert(e.len() == 41 + tb.len());
    assert(e[0] == TILE_KIND);
    assert(e.subrange(1, 9) =~= spec_enc_i64(r.pos.x));
    assert(e.subrange(9, 17) =~= spec_enc_i64(r.pos.y));
    assert(e.subrange(17, 25) =~= spec_enc_i64(r.size.x));
    assert(e.subrange(25, 33) =~= spec_enc_i64(r.size.y));
    assert(e.subrange(33, 41) =~= spec_enc_u64(tb.len() as u64));
    assert(e.subrange(41, e.len() as int) =~= tb);
}

/// A byte string a tile record parses out of is exactly that record's
/// encoding.
pub proof fn lemma_tile_rec_canonical(b: Seq<u8>, r: TileDataView)
    requires
        spec_parse_tile_rec(b) == Some(r),
    ensures
        tile_data_wf(r),
        b =~= spec_enc_tile_rec(r),
{
    lemma_auto_spec_u64_to_from_le_bytes();
    broadcast use vstd::utf8::decode_utf8_encode_utf8;

    let tb = b.subrange(41, b.len() as int);
    assert(encode_utf8(r.tag) =~= tb);
    assert(spec_enc_i64(r.pos.x) =~= b.subrange(1, 9));
    assert(spec_enc_i64(r.pos.y) =~= b.subrange(9, 17));
    assert(spec_enc_i64(r.size.x) =~= b.subrange(17, 25));
    assert(spec_enc_i64(r.size.y) =~= b.subrange(25, 33));
    assert(spec_enc_u64((b.len() - 41) as u64) =~= b.subrange(33, 41));
    assert(b =~= spec_enc_tile_rec(r));
}

/// Parses a whole byte string as a tile record.
pub fn parse_tile_data(data: &[u8]) -> (r: Option<TileData>)
    ensures
        match r {
            Some(td) => spec_parse_tile_rec(data@) == Some(td@) && tile_data_wf(td@),
            None => spec_parse_tile_rec(data@) is None,
        },
{
    let n = data.len();
    if n < 41 {
        return None;
    }
    if *vstd::slice::slice_index_get(data, 0) != TILE_KIND {
        return None;
    }
    let x = dec_i64_at(data, 1);
    let y = dec_i64_at(data, 9);
    let w = dec_i64_at(data, 17);
    let h = dec_i64_at(data, 25);
    let len = dec_u64_at(data, 33);
    if ((n - 41) as u64) != len {
        return None;
    }
    let tb = slice_subrange(data, 41, n);
    match crate::text::bytes_to_string(tb) {
        None => None,
        Some(s) => {
            if -POS_LIMIT <= x && x <= POS_LIMIT && -POS_LIMIT <= y && y <= POS_LIMIT && 0 <= w && w
                <= SIZE_LIMIT && 0 <= h && h <= SIZE_LIMIT {
                Some(TileData { type_tag: s, pos: Vec2i { x, y }, size: Vec2i { x: w, y: h } })
            } else {
                None
            }
        },
    }
}

impl SerializableTile for Tile {
    open spec fn serial_wf(&self) -> bool {
        self.wf()
    }

    open spec fn record_bytes(&self) -> Seq<u8> {
        spec_enc_tile_rec(tile_record_of(self@))
    }

    fn serialize(&self) -> (r: Vec<u8>) {
        let mut out: Vec<u8> = Vec::new();
        out.push(TILE_KIND);
        enc_i64_into(&mut out, self.pos.x);
        enc_i64_into(&mut out, self.pos.y);
        enc_i64_into(&mut out, self.size.x);
        enc_i64_into(&mut out, self.size.y);
        enc_str_into(&mut out, self.tag.as_str());
        proof {
            assert(out@ =~= spec_enc_tile_rec(tile_record_of(self@)));
        }
        out
    }
}

/// The prototype in `reg` carrying `tag`, when tags are unique.
pub open spec fn spec_tile_proto(reg: Seq<TileView>, tag: Seq<char>) -> TileView {
    reg[choose|i: int| 0 <= i < reg.len() && reg[i].tag == tag]
}

/// With unique tags, any prototype carrying `tag` is the one selected.
pub proof fn lemma_tile_proto_unique(reg: Seq<TileView>, tag: Seq<char>, i: int)
    requires
        forall|a: int, b: int| 0 <= a < b < reg.len() ==> reg[a].tag != reg[b].tag,
        0 <= i < reg.len(),
        reg[i].tag == tag,
    ensures
        spec_tile_proto(reg, tag) == reg[i],
{
    let j = choose|j: int| 0 <= j < reg.len() && reg[j].tag == tag;
    if i < j {
        assert(reg[i].tag != reg[j].tag);
    } else if j < i {
        assert(reg[j].tag != reg[i].tag);
    }
}

/// What reconstructing a tile from the record bytes `b` against the
/// registry contents `reg` yields: the parsed record's position and size on
/// a clone of the prototype with the record's tag.
pub open spec fn spec_deser_tile(reg: Seq<TileView>, b: Seq<u8>) -> Result<
    TileView,
    crate::WorldError,
> {
    match spec_parse_tile_rec(b) {
        None => Err(crate::WorldError::MalformedRecord),
        Some(rec) => if has_proto_tag(reg, rec.tag) {
            Ok(
                TileView {
                    tag: rec.tag,
                    pos: rec.pos,
                    size: rec.size,
                    texture: spec_tile_proto(reg, rec.tag).texture,
                },
            )
        } else {
            Err(crate::WorldError::UnknownTypeTag)
        },
    }
}

impl TileRegistry {
    /// Reconstructs a tile from its record: parses the record, clones the
    /// prototype registered under the record's tag, and overwrites the
    /// clone's position and size from the record.
    ///
    /// Fails with `MalformedRecord` exactly when the bytes are not a tile
    /// record, and with `UnknownTypeTag` exactly when the record's tag has
    /// no registered prototype.
    pub fn deserialize_tile(&self, data: &[u8]) -> (r: Result<Tile, crate::WorldError>)
        requires
            self.wf(),
        ensures
            (match spec_deser_tile(self@, data@) {
                Ok(tv) => r matches Ok(t) && t@ == tv && t.wf(),
                Err(e) => r matches Err(pe) && pe == e,
            }),
    {
        match parse_tile_data(data) {
            None => Err(crate::WorldError::MalformedRecord),
            Some(td) => {
                match self.create_tile_by_id(td.type_tag.as_str()) {
                    None => Err(crate::WorldError::UnknownTypeTag),
                    Some(mut t) => {
                        proof {
                            let i = choose|i: int|
                                0 <= i < self@.len() && self@[i].tag == td@.tag && t@ == self@[i];
                            lemma_tile_proto_unique(self@, td@.tag, i);
                        }
                        t.set_pos(td.pos);
                        t.set_size(td.size);
                        Ok(t)
                    },
                }
            },
        }
    }
}

/// The bytes of an object record: kind byte, position, size, velocity, tag.
pub open spec fn spec_enc_object_rec(r: ObjectDataView) -> Seq<u8> {
    seq![OBJECT_KIND] + spec_enc_i64(r.pos.x) + spec_enc_i64(r.pos.y) + spec_enc_i64(r.size.x)
        + spec_enc_i64(r.size.y) + spec_enc_i64(r.velocity.x) + spec_enc_i64(r.velocity.y)
        + spec_enc_str(r.tag)
}

/// The object record encoded in `b`, when `b` is exactly such an encoding
/// of an in-bounds record.
pub open spec fn spec_parse_object_rec(b: Seq<u8>) -> Option<ObjectDataView> {
    if b.len() < 57 {
        None
    } else if b[0] != OBJECT_KIND {
        None
    } else {
        let x = key_i64(spec_u64_from_le_bytes(b.subrange(1, 9)));
        let y = key_i64(spec_u64_from_le_bytes(b.subrange(9, 17)));
        let w = key_i64(spec_u64_from_le_bytes(b.subrange(17, 25)));
        let h = key_i64(spec_u64_from_le_bytes(b.subrange(25, 33)));
        let vx = key_i64(spec_u64_from_le_bytes(b.subrange(33, 41)));
        let vy = key_i64(spec_u64_from_le_bytes(b.subrange(41, 49)));
        let len = spec_u64_from_le_bytes(b.subrange(49, 57));
        if b.len() - 57 != len {
            None
        } else {
            let tb = b.subrange(57, b.len() as int);
            if !valid_utf8(tb) {
                None
            } else {
                let r = ObjectDataView {
                    tag: decode_utf8(tb),
                    pos: Vec2i { x, y },
                    size: Vec2i { x: w, y: h },
                    velocity: Vec2i { x: vx, y: vy },
                };
                if object_data_wf(r) {
                    Some(r)
                } else {
                    None
                }
            }
        }
    }
}

/// Parsing an object record undoes encoding it.
pub proof fn lemma_object_rec_roundtrip(r: ObjectDataView)
    requires
        object_data_wf(r),
        encode_utf8(r.tag).len() <= u64::MAX,
    ensures
        spec_parse_object_rec(spec_enc_object_rec(r)) == Some(r),
{
    lemma_auto_spec_u64_to_from_le_bytes();
    broadcast use vstd::utf8::encode_utf8_decode_utf8;
    broadcast use vstd::utf8::encode_utf8_valid_utf8;

    let e = spec_enc_object_rec(r);
    let tb = encode_utf8(r.tag);
    assert(e.len() == 57 + tb.len());
    assert(e[0] == OBJECT_KIND);
    assert(e.subrange(1, 9) =~= spec_enc_i64(r.pos.x));
    assert(e.subrange(9, 17) =~= spec_enc_i64(r.pos.y));
    assert(e.subrange(17, 25) =~= spec_enc_i64(r.size.x));
    assert(e.subrange(25, 33) =~= spec_enc_i64(r.size.y));
    assert(e.subrange(33, 41) =~= spec_enc_i64(r.velocity.x));
    assert(e.subrange(41, 49) =~= spec_enc_i64(r.velocity.y));
    assert(e.subrange(49, 57) =~= spec_enc_u64(tb.len() as u64));
    assert(e.subrange(57, e.len() as int) =~= tb);
}

/// A byte string an object record parses out of is exactly that record's
/// encoding.
pub proof fn lemma_object_rec_canonical(b: Seq<u8>, r: ObjectDataView)
    requires
        spec_parse_object_rec(b) == Some(r),
    ensures
        object_data_wf(r),
        b =~= spec_enc_object_rec(r),
{
    lemma_auto_spec_u64_to_from_le_bytes();
    broadcast use vstd::utf8::decode_utf8_encode_utf8;

    let tb = b.subrange(57, b.len() as int);
    assert(encode_utf8(r.tag) =~= tb);
    assert(spec_enc_i64(r.pos.x) =~= b.subrange(1, 9));
    assert(spec_enc_i64(r.pos.y) =~= b.subrange(9, 17));
    assert(spec_enc_i64(r.size.x) =~= b.subrange(17, 25));
    assert(spec_enc_i64(r.size.y) =~= b.subrange(25, 33));
    assert(spec_enc_i64(r.velocity.x) =~= b.subrange(33, 41));
    assert(spec_enc_i64(r.velocity.y) =~= b.subrange(41, 49));
    assert(spec_enc_u64((b.len() - 57) as u64) =~= b.subrange(49, 57));
    assert(b =~= spec_enc_object_rec(r));
}

/// Parses a whole byte string as an object record.
pub fn parse_object_data(data: &[u8]) -> (r: Option<ObjectData>)
    ensures
        match r {
            Some(od) => spec_parse_object_rec(data@) == Some(od@) && object_data_wf(od@),
            None => spec_parse_object_rec(data@) is None,
        },
{
    let n = data.len();
    if n < 57 {
        return None;
    }
    if *vstd::slice::slice_index_get(data, 0) != OBJECT_KIND {
        return None;
    }
    let x = dec_i64_at(data, 1);
    let y = dec_i64_at(data, 9);
    let w = dec_i64_at(data, 17);
    let h = dec_i64_at(data, 25);
    let vx = dec_i64_at(data, 33);
    let vy = dec_i64_at(data, 41);
    let len = dec_u64_at(data, 49);
    if ((n - 57) as u64) != len {
        return None;
    }
    let tb = slice_subrange(data, 57, n);
    match crate::text::bytes_to_string(tb) {
        None => None,
        Some(s) => {
            if -POS_LIMIT <= x && x <= POS_LIMIT && -POS_LIMIT <= y && y <= POS_LIMIT && 0 <= w && w
                <= SIZE_LIMIT && 0 <= h && h <= SIZE_LIMIT && -VEL_LIMIT <= vx && vx <= VEL_LIMIT
                && -VEL_LIMIT <= vy && vy <= VEL_LIMIT {
                Some(
                    ObjectData {
                        type_tag: s,
                        pos: Vec2i { x, y },
                        size: Vec2i { x: w, y: h },
                        velocity: Vec2i { x: vx, y: vy },
                    },
                )
            } else {
                None
            }
        },
    }
}

impl SerializableObject for Object {
    open spec fn serial_wf(&self) -> bool {
        self.wf()
    }

    open spec fn record_bytes(&self) -> Seq<u8> {
        spec_enc_object_rec(object_record_of(self@))
    }

    fn serialize(&self) -> (r: Vec<u8>) {
        let mut out: Vec<u8> = Vec::new();
        out.push(OBJECT_KIND);
        enc_i64_into(&mut out, self.pos.x);
        enc_i64_into(&mut out, self.pos.y);
        enc_i64_into(&mut out, self.size.x);
        enc_i64_into(&mut out, self.size.y);
        enc_i64_into(&mut out, self.velocity.x);
        enc_i64_into(&mut out, self.velocity.y);
        enc_str_into(&mut out, self.tag.as_str());
        proof {
            assert(out@ =~= spec_enc_object_rec(object_record_of(self@)));
        }
        out
    }
}

/// The prototype in `reg` carrying `tag`, when tags are unique.
pub open spec fn spec_object_proto(reg: Seq<ObjectView>, tag: Seq<char>) -> ObjectView {
    reg[choose|i: int| 0 <= i < reg.len() && reg[i].tag == tag]
}

/// With unique tags, any prototype carrying `tag` is the one selected.
pub proof fn lemma_object_proto_unique(reg: Seq<ObjectView>, tag: Seq<char>, i: int)
    requires
        forall|a: int, b: int| 0 <= a < b < reg.len() ==> reg[a].tag != reg[b].tag,
        0 <= i < reg.len(),
        reg[i].tag == tag,
    ensures
        spec_object_proto(reg, tag) == reg[i],
{
    let j = choose|j: int| 0 <= j < reg.len() && reg[j].tag == tag;
    if i < j {
        assert(reg[i].tag != reg[j].tag);
    } else if j < i {
        assert(reg[j].tag != reg[i].tag);
    }
}

/// What reconstructing an object from the record bytes `b` against the
/// registry contents `reg` yields.
pub open spec fn spec_deser_object(reg: Seq<ObjectView>, b: Seq<u8>) -> Result<
    ObjectView,
    crate::WorldError,
> {
    match spec_parse_object_rec(b) {
        None => Err(crate::WorldError::MalformedRecord),
        Some(rec) => if has_object_tag(reg, rec.tag) {
            Ok(
                ObjectView {
                    tag: rec.tag,
                    pos: rec.pos,
                    size: rec.size,
                    velocity: rec.velocity,
                    texture: spec_object_proto(reg, rec.tag).texture,
                },
            )
        } else {
            Err(crate::WorldError::UnknownTypeTag)
        },
    }
}

impl ObjectRegistry {
    /// Reconstructs an object from its record: parses the record, clones
    /// the prototype registered under the record's tag, and overwrites the
    /// clone's position, size and velocity from the record.
    ///
    /// Fails with `MalformedRecord` exactly when the bytes are not an
    /// object record, and with `UnknownTypeTag` exactly when the record's
    /// tag has no registered prototype.
    pub fn deserialize_object(&self, data: &[u8]) -> (r: Result<Object, crate::WorldError>)
        requires
            self.wf(),
        ensures
            (match spec_deser_object(self@, data@) {
                Ok(ov) => r matches Ok(o) && o@ == ov && o.wf(),
                Err(e) => r matches Err(pe) && pe == e,
            }),
    {
        match parse_object_data(data) {
            None => Err(crate::WorldError::MalformedRecord),
            Some(od) => {
                match self.create_object_by_id(od.type_tag.as_str()) {
                    None => Err(crate::WorldError::UnknownTypeTag),
                    Some(mut o) => {
                        proof {
                            let i = choose|i: int|
                                0 <= i < self@.len() && self@[i].tag == od@.tag && o@ == self@[i];
                            lemma_object_proto_unique(self@, od@.tag, i);
                        }
                        o.set_pos(od.pos);
                        o.set_size(od.size);
                        o.set_velocity(od.velocity);
                        Ok(o)
                    },
                }
            },
        }
    }
}

/// The bytes of a length-prefixed list of blobs.
pub open spec fn spec_enc_blob_list(l: Seq<Seq<u8>>) -> Seq<u8>
    decreases l.len(),
{
    if l.len() == 0 {
        Seq::empty()
    } else {
        spec_enc_blob(l[0]) + spec_enc_blob_list(l.drop_first())
    }
}

/// The `n` length-prefixed blobs encoded in `b`, when `b` is exactly such a
/// list.
pub open spec fn spec_parse_blob_list(b: Seq<u8>, n: nat) -> Option<Seq<Seq<u8>>>
    decreases n,
{
    if n == 0 {
        if b.len() == 0 {
            Some(Seq::empty())
        } else {
            None
        }
    } else if b.len() < 8 {
        None
    } else {
        let len = spec_u64_from_le_bytes(b.subrange(0, 8));
        if b.len() - 8 < len {
            None
        } else {
            let first = b.subrange(8, 8 + len);
            match spec_parse_blob_list(b.subrange(8 + len, b.len() as int), (n - 1) as nat) {
                None => None,
                Some(rest) => Some(seq![first] + rest),
            }
        }
    }
}

/// Appending one blob to a list appends its encoding.
pub proof fn lemma_blob_list_snoc(l: Seq<Seq<u8>>, x: Seq<u8>)
    ensures
        spec_enc_blob_list(l.push(x)) == spec_enc_blob_list(l) + spec_enc_blob(x),
    decreases l.len(),
{
    if l.len() == 0 {
        assert(l.push(x)[0] == x);
        assert(l.push(x).drop_first() =~= Seq::<Seq<u8>>::empty());
        assert(spec_enc_blob_list(Seq::<Seq<u8>>::empty()) == Seq::<u8>::empty());
        assert(spec_enc_blob_list(l.push(x)) == spec_enc_blob(x) + Seq::<u8>::empty());
        assert(spec_enc_blob(x) + Seq::<u8>::empty() =~= spec_enc_blob(x));
        assert(spec_enc_blob_list(l) + spec_enc_blob(x) =~= spec_enc_blob(x));
    } else {
        assert(l.push(x)[0] == l[0]);
        assert(l.push(x).drop_first() =~= l.drop_first().push(x));
        lemma_blob_list_snoc(l.drop_first(), x);
        let a = spec_enc_blob(l[0]);
        let b = spec_enc_blob_list(l.drop_first());
        let c = spec_enc_blob(x);
        assert(spec_enc_blob_list(l.push(x)) == a + (b + c));
        assert(a + (b + c) =~= (a + b) + c);
        assert(spec_enc_blob_list(l) == a + b);
    }
}

/// Parsing a blob list undoes encoding it.
pub proof fn lemma_blob_list_roundtrip(l: Seq<Seq<u8>>)
    requires
        forall|i: int| 0 <= i < l.len() ==> (#[trigger] l[i]).len() <= u64::MAX,
    ensures
        spec_parse_blob_list(spec_enc_blob_list(l), l.len() as nat) == Some(l),
    decreases l.len(),
{
    lemma_auto_spec_u64_to_from_le_bytes();
    if l.len() == 0 {
    } else {
        let e = spec_enc_blob_list(l);
        let rest = spec_enc_blob_list(l.drop_first());
        assert(e == spec_enc_blob(l[0]) + rest);
        assert(e.len() == 8 + l[0].len() + rest.len());
        assert(e.subrange(0, 8) =~= spec_enc_u64(l[0].len() as u64));
        assert(e.subrange(8, 8 + l[0].len() as int) =~= l[0]);
        assert(e.subrange(8 + l[0].len() as int, e.len() as int) =~= rest);
        assert(forall|i: int|
            0 <= i < l.drop_first().len() ==> (#[trigger] l.drop_first()[i]).len() <= u64::MAX);
        lemma_blob_list_roundtrip(l.drop_first());
        assert(seq![l[0]] + l.drop_first() =~= l);
    }
}

/// A byte string a blob list parses out of is exactly that list's encoding,
/// and the list has the requested length.
pub proof fn lemma_blob_list_canonical(b: Seq<u8>, n: nat, l: Seq<Seq<u8>>)
    requires
        spec_parse_blob_list(b, n) == Some(l),
    ensures
        l.len() == n,
        b =~= spec_enc_blob_list(l),
        b.len() >= 8 * n,
        forall|i: int| 0 <= i < l.len() ==> (#[trigger] l[i]).len() <= u64::MAX,
    decreases n,
{
    lemma_auto_spec_u64_to_from_le_bytes();
    if n == 0 {
    } else {
        let len = spec_u64_from_le_bytes(b.subrange(0, 8));
        let first = b.subrange(8, 8 + len);
        let tail = b.subrange(8 + len, b.len() as int);
        let rest = spec_parse_blob_list(tail, (n - 1) as nat);
        lemma_blob_list_canonical(tail, (n - 1) as nat, rest.unwrap());
        assert(l == seq![first] + rest.unwrap());
        assert(l[0] == first);
        assert(l.drop_first() =~= rest.unwrap());
        assert(spec_enc_blob(first).subrange(0, 8) =~= spec_enc_u64(first.len() as u64));
        assert(b =~= spec_enc_blob(l[0]) + spec_enc_blob_list(l.drop_first()));
        assert(spec_enc_blob_list(l) == spec_enc_blob(l[0]) + spec_enc_blob_list(l.drop_first()));
    }
}

/// A list of `n` blobs takes at least `8 * n` bytes, so more members than
/// the bytes could hold never parse.
pub proof fn lemma_blob_list_too_many(b: Seq<u8>, n: nat)
    requires
        8 * n > b.len(),
    ensures
        spec_parse_blob_list(b, n) is None,
{
    if spec_parse_blob_list(b, n) is Some {
        lemma_blob_list_canonical(b, n, spec_parse_blob_list(b, n).unwrap());
    }
}

/// Appends one length-prefixed blob to `out`.
pub fn enc_blob_into(out: &mut Vec<u8>, b: Vec<u8>)
    ensures
        final(out)@ == old(out)@ + spec_enc_blob(b@),
{
    let mut bb = b;
    let len = bb.len();
    enc_u64_into(out, len as u64);
    out.append(&mut bb);
    assert(out@ =~= old(out)@ + spec_enc_blob(b@));
}

/// Parses the bytes of `data` from `start` to the end as exactly `count`
/// length-prefixed blobs.
pub fn parse_blob_list(data: &[u8], start: usize, count: u64) -> (r: Option<Vec<Vec<u8>>>)
    requires
        start <= data@.len(),
    ensures
        (match r {
            Some(v) => spec_parse_blob_list(
                data@.subrange(start as int, data@.len() as int),
                count as nat,
            ) == Some(v.deep_view()),
            None => spec_parse_blob_list(
                data@.subrange(start as int, data@.len() as int),
                count as nat,
            ) is None,
        }),
{
    let end = data.len();
    let mut cur: usize = start;
    let mut out: Vec<Vec<u8>> = Vec::new();
    let mut k: u64 = 0;
    while k < count
        invariant
            start <= cur <= end,
            end == data@.len(),
            k <= count,
            out.deep_view().len() == k,
            (match spec_parse_blob_list(data@.subrange(cur as int, end as int), (count - k) as nat) {
                Some(rest) => spec_parse_blob_list(
                    data@.subrange(start as int, end as int),
                    count as nat,
                ) == Some(out.deep_view() + rest),
                None => spec_parse_blob_list(
                    data@.subrange(start as int, end as int),
                    count as nat,
                ) is None,
            }),
        decreases count - k,
    {
        let ghost pre = data@.subrange(cur as int, end as int);
        if end - cur < 8 {
            return None;
        }
        let len64 = dec_u64_at(data, cur);
        proof {
            assert(pre.subrange(0, 8) =~= data@.subrange(cur as int, cur as int + 8));
        }
        if ((end - cur - 8) as u64) < len64 {
            return None;
        }
        let len = len64 as usize;
        let blob = vstd::slice::slice_to_vec(slice_subrange(data, cur + 8, cur + 8 + len));
        let ghost old_out = out.deep_view();
        proof {
            assert(blob@ =~= pre.subrange(8, 8 + len64));
            assert(blob.deep_view() =~= blob@);
        }
        out.push(blob);
        proof {
            assert(out.deep_view() =~= old_out.push(pre.subrange(8, 8 + len64)));
        }
        cur = cur + 8 + len;
        k = k + 1;
        proof {
            assert(pre.subrange(8 + len64, pre.len() as int) =~= data@.subrange(
                cur as int,
                end as int,
            ));
            assert forall|rest: Seq<Seq<u8>>|
                old_out + (seq![pre.subrange(8, 8 + len64)] + rest) =~= (#[trigger] (out.deep_view()
                    + rest)) by {}
        }
    }
    if cur != end {
        return None;
    }
    proof {
        assert(data@.subrange(cur as int, end as int).len() == 0);
        assert(out.deep_view() + Seq::<Seq<u8>>::empty() =~= out.deep_view());
    }
    Some(out)
}

/// The bytes of a world metadata record: kind byte and world name.
pub open spec fn spec_enc_world_rec(name: Seq<char>) -> Seq<u8> {
    seq![WORLD_KIND] + spec_enc_str(name)
}

/// The world name encoded in `b`, when `b` is exactly a metadata record.
pub open spec fn spec_parse_world_rec(b: Seq<u8>) -> Option<Seq<char>> {
    if b.len() < 9 {
        None
    } else if b[0] != WORLD_KIND {
        None
    } else {
        let len = spec_u64_from_le_bytes(b.subrange(1, 9));
        if b.len() - 9 != len {
            None
        } else {
            let nb = b.subrange(9, b.len() as int);
            if !valid_utf8(nb) {
                None
            } else {
                Some(decode_utf8(nb))
            }
        }
    }
}

/// Parsing a world metadata record undoes encoding it.
pub proof fn lemma_world_rec_roundtrip(name: Seq<char>)
    requires
        encode_utf8(name).len() <= u64::MAX,
    ensures
        spec_parse_world_rec(spec_enc_world_rec(name)) == Some(name),
{
    lemma_auto_spec_u64_to_from_le_bytes();
    broadcast use vstd::utf8::encode_utf8_decode_utf8;
    broadcast use vstd::utf8::encode_utf8_valid_utf8;

    let e = spec_enc_world_rec(name);
    let nb = encode_utf8(name);
    assert(e.len() == 9 + nb.len());
    assert(e[0] == WORLD_KIND);
    assert(e.subrange(1, 9) =~= spec_enc_u64(nb.len() as u64));
    assert(e.subrange(9, e.len() as int) =~= nb);
}

/// Encodes a world metadata record.
pub fn enc_world_meta(name: &str) -> (r: Vec<u8>)
    ensures
        r@ == spec_enc_world_rec(name@),
{
    let mut out: Vec<u8> = Vec::new();
    out.push(WORLD_KIND);
    enc_str_into(&mut out, name);
    assert(out@ =~= spec_enc_world_rec(name@));
    out
}

/// Parses a whole byte string as a world metadata record, yielding the
/// world name.
pub fn parse_world_meta(data: &[u8]) -> (r: Option<String>)
    ensures
        (match r {
            Some(s) => spec_parse_world_rec(data@) == Some(s@),
            None => spec_parse_world_rec(data@) is None,
        }),
{
    let n = data.len();
    if n < 9 {
        return None;
    }
    if *vstd::slice::slice_index_get(data, 0) != WORLD_KIND {
        return None;
    }
    let len = dec_u64_at(data, 1);
    if ((n - 9) as u64) != len {
        return None;
    }
    let nb = slice_subrange(data, 9, n);
    crate::text::bytes_to_string(nb)
}

} // verus!
