use gaymwtf_core::biome::{Biome, BiomeRegistry, SpawnEntry};
use gaymwtf_core::chunk::Chunk;
use gaymwtf_core::draw::DrawBatch;
use gaymwtf_core::geom::{chunk_coord, floor_div, Vec2i};
use gaymwtf_core::logger::{GameLogger, LogLevel};
use gaymwtf_core::object::{Object, ObjectRegistry, SerializableObject};
use gaymwtf_core::tile::{SerializableTile, Tile, TileRegistry};
use gaymwtf_core::ui::{Button, ButtonState, MenuAction, ScreenRect};
use gaymwtf_core::world::World;
use gaymwtf_core::WorldError;

fn v(x: i64, y: i64) -> Vec2i {
    Vec2i { x, y }
}

fn stone(x: i64, y: i64) -> Tile {
    Tile::new(String::from("stone"), v(x, y), v(16, 16), 7)
}

fn mob(x: i64, y: i64, vx: i64, vy: i64) -> Object {
    Object::new(String::from("mob"), v(x, y), v(16, 16), v(vx, vy), 9)
}

fn registries() -> (TileRegistry, ObjectRegistry, BiomeRegistry) {
    let mut tr = TileRegistry::new();
    tr.register(stone(0, 0));
    let mut or = ObjectRegistry::new();
    or.register(mob(0, 0, 0, 0));
    let br = BiomeRegistry::new();
    (tr, or, br)
}

#[test]
fn floor_div_rounds_toward_negative_infinity() {
    assert_eq!(floor_div(0, 256), 0);
    assert_eq!(floor_div(255, 256), 0);
    assert_eq!(floor_div(256, 256), 1);
    assert_eq!(floor_div(-1, 256), -1);
    assert_eq!(floor_div(-256, 256), -1);
    assert_eq!(floor_div(-257, 256), -2);
}

#[test]
fn chunk_coord_matches_floor_division() {
    assert_eq!(chunk_coord(v(300, -5)), v(1, -1));
    assert_eq!(chunk_coord(v(-256, 511)), v(-1, 1));
}

#[test]
fn prototype_clones_are_independent() {
    let mut tr = TileRegistry::new();
    tr.register(Tile::new(String::from("grass"), v(0, 0), v(16, 16), 3));
    tr.register(Tile::new(String::from("sand"), v(0, 0), v(16, 16), 4));
    let mut a = tr.create_tile_by_id("grass").unwrap();
    let b = tr.create_tile_by_id("sand").unwrap();
    a.set_pos(v(99, 99));
    a.tag = String::from("mud");
    // the other clone and the prototypes are untouched
    assert_eq!(b.pos, v(0, 0));
    assert_eq!(b.tag, "sand");
    let fresh = tr.create_tile_by_id("grass").unwrap();
    assert_eq!(fresh.pos, v(0, 0));
    assert_eq!(fresh.tag, "grass");
    assert_eq!(fresh.texture, 3);
    assert!(tr.create_tile_by_id("mud").is_none());
}

#[test]
fn register_last_wins() {
    let mut tr = TileRegistry::new();
    tr.register(Tile::new(String::from("grass"), v(0, 0), v(16, 16), 3));
    tr.register(Tile::new(String::from("grass"), v(0, 0), v(16, 16), 8));
    let t = tr.create_tile_by_id("grass").unwrap();
    assert_eq!(t.texture, 8);
}

#[test]
fn add_chunk_is_idempotent_first_wins() {
    let (tr, or, br) = registries();
    let mut world = World::new("w", tr, or, br);
    let mut first = Chunk::new(v(0, 0));
    first.tiles.push(stone(0, 0));
    world.add_chunk(first);
    let second = Chunk::new(v(0, 0));
    world.add_chunk(second);
    assert_eq!(world.chunks.len(), 1);
    assert_eq!(world.chunks[0].tiles.len(), 1);
}

#[test]
fn tile_record_round_trip() {
    let (tr, _, _) = registries();
    let t = stone(48, -32);
    let bytes = t.serialize();
    let back = tr.deserialize_tile(&bytes).unwrap();
    assert_eq!(back.tag, "stone");
    assert_eq!(back.pos, v(48, -32));
    assert_eq!(back.size, v(16, 16));
    assert_eq!(back.texture, 7);
}

#[test]
fn object_record_round_trip() {
    let (_, or, _) = registries();
    let o = mob(-100, 7, 3, -4);
    let bytes = o.serialize();
    let back = or.deserialize_object(&bytes).unwrap();
    assert_eq!(back.tag, "mob");
    assert_eq!(back.pos, v(-100, 7));
    assert_eq!(back.size, v(16, 16));
    assert_eq!(back.velocity, v(3, -4));
    assert_eq!(back.texture, 9);
}

#[test]
fn unknown_tag_is_reported() {
    let (tr, or, _) = registries();
    let t = Tile::new(String::from("gold"), v(0, 0), v(16, 16), 1);
    assert!(matches!(tr.deserialize_tile(&t.serialize()), Err(WorldError::UnknownTypeTag)));
    let o = Object::new(String::from("slime"), v(0, 0), v(16, 16), v(0, 0), 1);
    assert!(matches!(or.deserialize_object(&o.serialize()), Err(WorldError::UnknownTypeTag)));
}

#[test]
fn malformed_record_is_reported() {
    let (tr, or, _) = registries();
    assert!(matches!(tr.deserialize_tile(&[1, 2, 3]), Err(WorldError::MalformedRecord)));
    assert!(matches!(or.deserialize_object(&[]), Err(WorldError::MalformedRecord)));
    // a valid record truncated by one byte no longer parses
    let good = stone(0, 0).serialize();
    let mut bad = good.clone();
    bad.pop();
    assert!(matches!(tr.deserialize_tile(&bad), Err(WorldError::MalformedRecord)));
}

#[test]
fn unicode_tag_round_trip() {
    let mut tr = TileRegistry::new();
    tr.register(Tile::new(String::from("пещера🌋"), v(0, 0), v(16, 16), 2));
    let t = Tile::new(String::from("пещера🌋"), v(1, 2), v(16, 16), 2);
    let back = tr.deserialize_tile(&t.serialize()).unwrap();
    assert_eq!(back.tag, "пещера🌋");
    assert_eq!(back.pos, v(1, 2));
}

#[test]
fn chunk_record_round_trip() {
    let (tr, or, _) = registries();
    let mut c = Chunk::new(v(2, -1));
    c.tiles.push(stone(512, -256));
    c.tiles.push(stone(528, -256));
    c.objects.push(mob(520, -200, 1, 1));
    let bytes = c.serialize();
    let back = Chunk::deserialize(&bytes, &tr, &or).unwrap();
    assert_eq!(back.pos, v(2, -1));
    assert_eq!(back.tiles.len(), 2);
    assert_eq!(back.objects.len(), 1);
    assert_eq!(back.tiles[0].pos, v(512, -256));
    assert_eq!(back.tiles[1].pos, v(528, -256));
    assert_eq!(back.objects[0].pos, v(520, -200));
    assert_eq!(back.objects[0].velocity, v(1, 1));
}

#[test]
fn chunk_with_unknown_member_fails_whole_chunk() {
    let (tr, or, _) = registries();
    let mut c = Chunk::new(v(0, 0));
    c.tiles.push(Tile::new(String::from("gold"), v(0, 0), v(16, 16), 1));
    let bytes = c.serialize();
    assert!(matches!(Chunk::deserialize(&bytes, &tr, &or), Err(WorldError::UnknownTypeTag)));
}

#[test]
fn world_save_load_round_trip() {
    let (tr, or, br) = registries();
    let mut world = World::new("overworld", tr, or, br);
    let mut c0 = Chunk::new(v(0, 0));
    c0.tiles.push(stone(0, 0));
    world.add_chunk(c0);
    let mut c1 = Chunk::new(v(1, 0));
    c1.objects.push(mob(300, 0, 0, 0));
    world.add_chunk(c1);
    let (meta, files) = world.save_world();
    let datas: Vec<Vec<u8>> = files.into_iter().map(|(_, d)| d).collect();
    let (tr2, or2, br2) = registries();
    let loaded = World::load_world(&meta, &datas, tr2, or2, br2).unwrap();
    assert_eq!(loaded.world_name, "overworld");
    assert_eq!(loaded.chunks.len(), 2);
}

#[test]
fn corrupted_chunk_file_is_skipped() {
    let (tr, or, br) = registries();
    let mut world = World::new("w", tr, or, br);
    world.add_chunk(Chunk::new(v(0, 0)));
    world.add_chunk(Chunk::new(v(1, 0)));
    world.add_chunk(Chunk::new(v(2, 0)));
    let (meta, files) = world.save_world();
    let mut datas: Vec<Vec<u8>> = files.into_iter().map(|(_, d)| d).collect();
    datas[1][0] = 0xff;
    let (tr2, or2, br2) = registries();
    let loaded = World::load_world(&meta, &datas, tr2, or2, br2).unwrap();
    assert_eq!(loaded.chunks.len(), 2);
}

#[test]
fn malformed_metadata_fails_whole_load() {
    let (tr, or, br) = registries();
    let r = World::load_world(&[0, 1, 2], &Vec::new(), tr, or, br);
    assert!(matches!(r, Err(WorldError::MalformedRecord)));
}

#[test]
fn chunk_visibility_matches_viewport_intersection() {
    let c = Chunk::new(v(0, 0));
    assert!(c.is_visible(v(128, 128), v(100, 100)));
    assert!(c.is_visible(v(300, 300), v(200, 200)));
    assert!(!c.is_visible(v(1000, 0), v(100, 100)));
    assert!(!c.is_visible(v(0, -500), v(100, 100)));
}

#[test]
fn zero_viewport_visibility_is_point_membership() {
    let c = Chunk::new(v(0, 0));
    assert!(c.is_visible(v(0, 0), v(0, 0)));
    assert!(c.is_visible(v(256, 256), v(0, 0)));
    assert!(c.is_visible(v(128, 17), v(0, 0)));
    assert!(!c.is_visible(v(257, 0), v(0, 0)));
    assert!(!c.is_visible(v(-1, 128), v(0, 0)));
}

#[test]
fn migration_moves_object_to_containing_chunk() {
    let (tr, or, br) = registries();
    let mut world = World::new("w", tr, or, br);
    let mut c0 = Chunk::new(v(0, 0));
    c0.objects.push(mob(300, 8, 0, 0));
    world.add_chunk(c0);
    world.add_chunk(Chunk::new(v(1, 0)));
    world.update(v(128, 128), v(800, 600));
    let at0 = world.find_chunk(v(0, 0)).unwrap();
    let at1 = world.find_chunk(v(1, 0)).unwrap();
    assert_eq!(world.chunks[at0].objects.len(), 0);
    assert_eq!(world.chunks[at1].objects.len(), 1);
    assert_eq!(world.chunks[at1].objects[0].pos, v(300, 8));
}

#[test]
fn migration_drops_object_without_destination() {
    let (tr, or, br) = registries();
    let mut world = World::new("w", tr, or, br);
    let mut c0 = Chunk::new(v(0, 0));
    c0.objects.push(mob(-5, 0, 0, 0));
    world.add_chunk(c0);
    world.update(v(128, 128), v(800, 600));
    let at0 = world.find_chunk(v(0, 0)).unwrap();
    assert_eq!(world.chunks[at0].objects.len(), 0);
}

#[test]
fn head_on_collision_zeroes_x_velocity() {
    let (tr, or, br) = registries();
    let mut world = World::new("w", tr, or, br);
    let mut c0 = Chunk::new(v(0, 0));
    c0.objects.push(mob(0, 0, 2, 3));
    c0.objects.push(mob(13, 0, -2, 0));
    world.add_chunk(c0);
    world.update(v(8, 8), v(800, 600));
    let at0 = world.find_chunk(v(0, 0)).unwrap();
    let a = &world.chunks[at0].objects[0];
    let b = &world.chunks[at0].objects[1];
    assert_eq!(a.velocity, v(0, 3));
    assert_eq!(b.velocity, v(0, 0));
    // after resolution each object advanced by its remaining velocity
    assert_eq!(a.pos, v(0, 3));
    assert_eq!(b.pos, v(13, 0));
}

#[test]
fn separating_pair_is_untouched() {
    let (tr, or, br) = registries();
    let mut world = World::new("w", tr, or, br);
    let mut c0 = Chunk::new(v(0, 0));
    c0.objects.push(mob(0, 0, -2, 0));
    c0.objects.push(mob(13, 0, 2, 0));
    world.add_chunk(c0);
    world.update(v(8, 8), v(800, 600));
    let at0 = world.find_chunk(v(0, 0)).unwrap();
    assert_eq!(world.chunks[at0].objects[0].velocity, v(-2, 0));
    assert_eq!(world.chunks[at0].objects[1].velocity, v(2, 0));
}

#[test]
fn will_collide_and_approaching_predicates() {
    let a = mob(0, 0, 2, 0);
    let b = mob(13, 0, -2, 0);
    assert!(a.will_collide(&b));
    assert!(a.approaching(&b));
    let far = mob(200, 0, 0, 0);
    assert!(!a.will_collide(&far));
    let fleeing = mob(13, 0, 30, 0);
    assert!(!a.approaching(&fleeing));
}

#[test]
fn inactive_object_is_not_ticked() {
    let (tr, or, br) = registries();
    let mut world = World::new("w", tr, or, br);
    let mut c0 = Chunk::new(v(0, 0));
    // inside the viewport plus margin: ticked
    c0.objects.push(mob(0, 0, 1, 0));
    world.add_chunk(c0);
    // far outside every visible chunk: untouched
    let mut cfar = Chunk::new(v(100, 100));
    cfar.objects.push(mob(25600, 25600, 1, 0));
    world.add_chunk(cfar);
    world.update(v(0, 0), v(100, 100));
    let near = world.find_chunk(v(0, 0)).unwrap();
    let far = world.find_chunk(v(100, 100)).unwrap();
    assert_eq!(world.chunks[near].objects[0].pos, v(1, 0));
    assert_eq!(world.chunks[far].objects[0].pos, v(25600, 25600));
}

#[test]
fn tick_advances_position_by_velocity() {
    let mut o = mob(10, 20, -3, 4);
    o.tick();
    assert_eq!(o.pos, v(7, 24));
    assert_eq!(o.velocity, v(-3, 4));
}

#[test]
fn lookup_by_type_scans_visible_chunks() {
    let (tr, or, br) = registries();
    let mut world = World::new("w", tr, or, br);
    let mut c0 = Chunk::new(v(0, 0));
    c0.tiles.push(stone(0, 0));
    c0.tiles.push(Tile::new(String::from("grass"), v(16, 0), v(16, 16), 3));
    c0.objects.push(mob(0, 0, 0, 0));
    world.add_chunk(c0);
    world.update(v(0, 0), v(100, 100));
    assert_eq!(world.get_tiles_by_type("stone").len(), 1);
    assert_eq!(world.get_tiles_by_type("grass").len(), 1);
    assert_eq!(world.get_tiles_by_type("mud").len(), 0);
    assert_eq!(world.get_objects_by_type("mob").len(), 1);
    let at0 = world.find_chunk(v(0, 0)).unwrap();
    assert_eq!(world.chunks[at0].get_tiles_by_type("stone").len(), 1);
    assert_eq!(world.chunks[at0].get_objects_by_type("mob").len(), 1);
}

#[test]
fn draw_batch_groups_by_texture() {
    let mut batch = DrawBatch::new();
    batch.add(1, v(0, 0), 16, None);
    batch.add(2, v(5, 5), 16, None);
    batch.add(1, v(10, 10), 16, Some(v(32, 32)));
    assert_eq!(batch.groups.len(), 2);
    assert_eq!(batch.groups[0].texture, 1);
    assert_eq!(batch.groups[0].items.len(), 2);
    assert_eq!(batch.groups[1].texture, 2);
    assert_eq!(batch.groups[1].items.len(), 1);
    batch.clear();
    assert_eq!(batch.groups.len(), 0);
}

#[test]
fn world_draw_emits_tiles_then_objects() {
    let (tr, or, br) = registries();
    let mut world = World::new("w", tr, or, br);
    let mut c0 = Chunk::new(v(0, 0));
    c0.tiles.push(stone(0, 0));
    c0.objects.push(mob(4, 4, 0, 0));
    world.add_chunk(c0);
    world.update(v(8, 8), v(100, 100));
    let (tiles_batch, objects_batch) = world.draw(v(8, 8), v(100, 100));
    assert_eq!(tiles_batch.groups.len(), 1);
    assert_eq!(tiles_batch.groups[0].texture, 7);
    assert!(tiles_batch.groups[0].items.len() >= 1);
    assert_eq!(objects_batch.groups.len(), 1);
    assert_eq!(objects_batch.groups[0].texture, 9);
    assert_eq!(objects_batch.groups[0].items.len(), 1);
}

#[test]
fn biome_first_match_wins() {
    let mut br = BiomeRegistry::new();
    br.register(Biome {
        tag: String::from("desert"),
        height_min: 0,
        height_max: 1000,
        moisture_min: 0,
        moisture_max: 300,
        temperature_min: 700,
        temperature_max: 1000,
        ground_tile: String::from("sand"),
        spawnable: vec![SpawnEntry { tag: String::from("scorpion"), weight: 50 }],
    });
    br.register(Biome {
        tag: String::from("plains"),
        height_min: 0,
        height_max: 1000,
        moisture_min: 0,
        moisture_max: 1000,
        temperature_min: 0,
        temperature_max: 1000,
        ground_tile: String::from("grass"),
        spawnable: vec![SpawnEntry { tag: String::from("mob"), weight: 50 }],
    });
    let hot_dry = br.find_biome(500, 100, 900).unwrap();
    assert_eq!(hot_dry.get_type_tag(), "desert");
    assert_eq!(hot_dry.get_ground_tile_type(), "sand");
    let wet = br.find_biome(500, 800, 900).unwrap();
    assert_eq!(wet.get_type_tag(), "plains");
    assert!(br.find_biome(2000, 0, 0).is_none());
}

#[test]
fn logger_caps_by_target_and_level() {
    let logger = GameLogger::init();
    assert!(logger.should_log("world", LogLevel::Info));
    assert!(logger.should_log("world", LogLevel::Error));
    assert!(!logger.should_log("world", LogLevel::Debug));
    assert!(logger.should_log("anything", LogLevel::Warn));
    assert!(!logger.should_log("anything", LogLevel::Trace));
}

#[test]
fn button_click_cycle() {
    let mut b = Button::new("play", ScreenRect { x: 0, y: 0, w: 100, h: 40 });
    assert_eq!(b.state, ButtonState::Normal);
    assert!(!b.was_clicked());
    // hover, press, release over the button: a click
    b.update(v(10, 10), false);
    assert_eq!(b.state, ButtonState::Hovered);
    b.update(v(10, 10), true);
    assert_eq!(b.state, ButtonState::Pressed);
    b.update(v(10, 10), false);
    assert_eq!(b.state, ButtonState::Hovered);
    assert!(b.was_clicked());
    b.reset_click();
    assert!(!b.was_clicked());
    // press then drag off: no click
    b.update(v(10, 10), true);
    b.update(v(500, 10), false);
    assert_eq!(b.state, ButtonState::Normal);
    assert!(!b.was_clicked());
    // a disabled button ignores input
    b.state = ButtonState::Disabled;
    let changed = b.update(v(10, 10), true);
    assert!(!changed);
    assert_eq!(b.state, ButtonState::Disabled);
}

#[test]
fn menu_action_carries_target_state() {
    let a = MenuAction::ChangeState(String::from("pause"));
    assert_eq!(a, MenuAction::ChangeState(String::from("pause")));
    assert_ne!(a, MenuAction::Quit);
    assert_ne!(MenuAction::Idle, MenuAction::Quit);
}

#[test]
fn world_meta_round_trip() {
    let (tr, or, br) = registries();
    let world = World::new("the caves of ночь", tr, or, br);
    let (meta, _) = world.save_world();
    let (tr2, or2, br2) = registries();
    let loaded = World::load_world(&meta, &Vec::new(), tr2, or2, br2).unwrap();
    assert_eq!(loaded.world_name, "the caves of ночь");
    assert_eq!(loaded.chunks.len(), 0);
}
