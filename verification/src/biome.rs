//! Environmental classifiers and their registry.
//!
//! A biome judges whether a location suits it from height, moisture and
//! temperature samples, and supplies the ground tile tag and a weighted
//! spawn table for terrain generation.  Samples are carried in fixed-point
//! thousandths, so a sample of `1000` stands for the top of the unit range.
//! Biomes are looked up by scanning in registration order and returning the
//! first suitable match.

use vstd::prelude::*;

verus! {

/// Mathematical content of a [`SpawnEntry`].
pub ghost struct SpawnEntryView {
    pub tag: Seq<char>,
    pub weight: u64,
}

/// One line of a biome's spawn table: an object tag and its spawn weight in
/// thousandths.
pub struct SpawnEntry {
    pub tag: String,
    pub weight: u64,
}

impl View for SpawnEntry {
    type V = SpawnEntryView;

    open spec fn view(&self) -> SpawnEntryView {
        SpawnEntryView { tag: self.tag@, weight: self.weight }
    }
}

/// Mathematical content of a [`Biome`].
#[verifier::ext_equal]
pub ghost struct BiomeView {
    pub tag: Seq<char>,
    pub height_min: i64,
    pub height_max: i64,
    pub moisture_min: i64,
    pub moisture_max: i64,
    pub temperature_min: i64,
    pub temperature_max: i64,
    pub ground_tile: Seq<char>,
    pub spawnable: Seq<SpawnEntryView>,
}

/// An environmental classifier: a box of sample ranges, a ground tile tag,
/// and a spawn table.
pub struct Biome {
    /// Stable identifier of the biome.
    pub tag: String,
    /// Inclusive height range, in thousandths of the unit interval.
    pub height_min: i64,
    pub height_max: i64,
    /// Inclusive moisture range, in thousandths.
    pub moisture_min: i64,
    pub moisture_max: i64,
    /// Inclusive temperature range, in thousandths.
    pub temperature_min: i64,
    pub temperature_max: i64,
    /// Tag of the ground tile the biome is floored with.
    pub ground_tile: String,
    /// Objects that may spawn here, with their weights.
    pub spawnable: Vec<SpawnEntry>,
}

impl View for Biome {
    type V = BiomeView;

    open spec fn view(&self) -> BiomeView {
        BiomeView {
            tag: self.tag@,
            height_min: self.height_min,
            height_max: self.height_max,
            moisture_min: self.moisture_min,
            moisture_max: self.moisture_max,
            temperature_min: self.temperature_min,
            temperature_max: self.temperature_max,
            ground_tile: self.ground_tile@,
            spawnable: Seq::new(self.spawnable@.len(), |i: int| self.spawnable@[i]@),
        }
    }
}

/// True when the samples fall inside all three of the biome's ranges.
pub open spec fn spec_suitable(b: BiomeView, height: i64, moisture: i64, temperature: i64) -> bool {
    &&& b.height_min <= height <= b.height_max
    &&& b.moisture_min <= moisture <= b.moisture_max
    &&& b.temperature_min <= temperature <= b.temperature_max
}

impl Biome {
    /// The biome's stable type tag.
    pub fn get_type_tag(&self) -> (r: &str)
        ensures
            r@ == self@.tag,
    {
        self.tag.as_str()
    }

    /// True when this biome suits the given samples (in thousandths).
    pub fn is_suitable(&self, height: i64, moisture: i64, temperature: i64) -> (r: bool)
        ensures
            r == spec_suitable(self@, height, moisture, temperature),
    {
        self.height_min <= height && height <= self.height_max && self.moisture_min <= moisture
            && moisture <= self.moisture_max && self.temperature_min <= temperature && temperature
            <= self.temperature_max
    }

    /// The tag of the ground tile this biome is floored with.
    pub fn get_ground_tile_type(&self) -> (r: &str)
        ensures
            r@ == self@.ground_tile,
    {
        self.ground_tile.as_str()
    }

    /// The biome's spawn table.
    pub fn get_spawnable_objects(&self) -> (r: &Vec<SpawnEntry>)
        ensures
            Seq::new(r@.len(), |i: int| r@[i]@) == self@.spawnable,
    {
        &self.spawnable
    }

    /// An independent copy of the biome.
    pub fn clone_box(&self) -> (r: Biome)
        ensures
            r@ == self@,
    {
        let mut spawn: Vec<SpawnEntry> = Vec::new();
        let n = self.spawnable.len();
        let mut i: usize = 0;
        while i < n
            invariant
                n == self.spawnable@.len(),
                i <= n,
                spawn@.len() == i,
                forall|k: int| 0 <= k < i ==> spawn@[k]@ == self.spawnable@[k]@,
            decreases n - i,
        {
            let e = SpawnEntry {
                tag: self.spawnable[i].tag.clone(),
                weight: self.spawnable[i].weight,
            };
            spawn.push(e);
            i = i + 1;
        }
        let r = Biome {
            tag: self.tag.clone(),
            height_min: self.height_min,
            height_max: self.height_max,
            moisture_min: self.moisture_min,
            moisture_max: self.moisture_max,
            temperature_min: self.temperature_min,
            temperature_max: self.temperature_max,
            ground_tile: self.ground_tile.clone(),
            spawnable: spawn,
        };
        proof {
            assert(r@.spawnable =~= self@.spawnable);
            assert(r@ =~= self@);
        }
        r
    }
}

/// Keeps the registered biomes in registration order.
pub struct BiomeRegistry {
    prototypes: Vec<Biome>,
}

impl View for BiomeRegistry {
    type V = Seq<BiomeView>;

    closed spec fn view(&self) -> Seq<BiomeView> {
        Seq::new(self.prototypes@.len(), |i: int| self.prototypes@[i]@)
    }
}

impl BiomeRegistry {
    /// An empty registry.
    pub fn new() -> (r: BiomeRegistry)
        ensures
            r@ =~= Seq::<BiomeView>::empty(),
    {
        BiomeRegistry { prototypes: Vec::new() }
    }

    /// Appends `biome` to the registration order.
    pub fn register(&mut self, biome: Biome)
        ensures
            final(self)@ =~= old(self)@.push(biome@),
    {
        self.prototypes.push(biome);
        assert(self@ =~= old(self)@.push(biome@));
    }

    /// The first registered biome that suits the given samples, scanning in
    /// registration order; `None` when no biome suits them.
    pub fn find_biome(&self, height: i64, moisture: i64, temperature: i64) -> (r: Option<&Biome>)
        ensures
            (match r {
                Some(b) => exists|i: int|
                    0 <= i < self@.len() && self@[i] == b@ && spec_suitable(
                        b@,
                        height,
                        moisture,
                        temperature,
                    ) && (forall|k: int|
                        0 <= k < i ==> !spec_suitable(self@[k], height, moisture, temperature)),
                None => forall|k: int|
                    0 <= k < self@.len() ==> !spec_suitable(
                        #[trigger] self@[k],
                        height,
                        moisture,
                        temperature,
                    ),
            }),
    {
        let n = self.prototypes.len();
        let mut i: usize = 0;
        while i < n
            invariant
                n == self@.len(),
                i <= n,
                forall|k: int|
                    0 <= k < i ==> !spec_suitable(#[trigger] self@[k], height, moisture, temperature),
            decreases n - i,
        {
            proof {
                assert(self@[i as int] == self.prototypes@[i as int]@);
            }
            if self.prototypes[i].is_suitable(height, moisture, temperature) {
                return Some(&self.prototypes[i]);
            }
            i = i + 1;
        }
        None
    }
}

} // verus!
