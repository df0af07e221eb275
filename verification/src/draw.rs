//! The draw batch: queued texture submissions grouped by texture handle.
//!
//! The core only fills and clears batches; flushing a batch to a rendering
//! backend is the surrounding application's concern.  A texture is named by
//! an application-chosen integer handle.

use vstd::prelude::*;

verus! {

use crate::geom::Vec2i;

/// One queued submission: a position, a scale, and an optional destination
/// size.
#[derive(Clone, Copy, Debug, PartialEq, Eq)]
pub struct DrawItem {
    pub pos: Vec2i,
    pub scale: i64,
    pub dest_size: Option<Vec2i>,
}

/// Mathematical content of a [`TextureGroup`].
#[verifier::ext_equal]
pub ghost struct TextureGroupView {
    pub texture: u64,
    pub items: Seq<DrawItem>,
}

/// All submissions queued for one texture handle, in submission order.
pub struct TextureGroup {
    pub texture: u64,
    pub items: Vec<DrawItem>,
}

impl View for TextureGroup {
    type V = TextureGroupView;

    open spec fn view(&self) -> TextureGroupView {
        TextureGroupView { texture: self.texture, items: self.items@ }
    }
}

/// A batch of texture submissions grouped by texture handle.
pub struct DrawBatch {
    pub groups: Vec<TextureGroup>,
}

impl View for DrawBatch {
    type V = Seq<TextureGroupView>;

    open spec fn view(&self) -> Seq<TextureGroupView> {
        Seq::new(self.groups@.len(), |i: int| self.groups@[i]@)
    }
}

/// True when some group in `b` carries `texture`.
pub open spec fn has_texture_group(b: Seq<TextureGroupView>, texture: u64) -> bool {
    exists|i: int| 0 <= i < b.len() && b[i].texture == texture
}

/// The batch `b` with one submission added: appended to the group carrying
/// `texture` when one exists, else opening a new group at the end.
pub open spec fn spec_batch_add(
    b: Seq<TextureGroupView>,
    texture: u64,
    item: DrawItem,
) -> Seq<TextureGroupView> {
    if has_texture_group(b, texture) {
        let g = choose|g: int| 0 <= g < b.len() && b[g].texture == texture;
        b.update(g, TextureGroupView { texture, items: b[g].items.push(item) })
    } else {
        b.push(TextureGroupView { texture, items: seq![item] })
    }
}

/// With unique texture handles, any group carrying `texture` is the one
/// selected.
pub proof fn lemma_texture_group_unique(b: Seq<TextureGroupView>, texture: u64, i: int)
    requires
        forall|a: int, c: int| 0 <= a < c < b.len() ==> b[a].texture != b[c].texture,
        0 <= i < b.len(),
        b[i].texture == texture,
    ensures
        (choose|g: int| 0 <= g < b.len() && b[g].texture == texture) == i,
{
    let j = choose|g: int| 0 <= g < b.len() && b[g].texture == texture;
    if i < j {
        assert(b[i].texture != b[j].texture);
    } else if j < i {
        assert(b[j].texture != b[i].texture);
    }
}

impl DrawBatch {
    /// Well-formedness: one group per texture handle.
    pub open spec fn wf(&self) -> bool {
        forall|a: int, c: int| 0 <= a < c < self@.len() ==> self@[a].texture != self@[c].texture
    }

    /// An empty batch.
    pub fn new() -> (r: DrawBatch)
        ensures
            r@ =~= Seq::<TextureGroupView>::empty(),
            r.wf(),
    {
        DrawBatch { groups: Vec::new() }
    }

    /// Queues one submission, grouped under its texture handle.
    pub fn add(&mut self, texture: u64, pos: Vec2i, scale: i64, dest_size: Option<Vec2i>)
        requires
            old(self).wf(),
        ensures
            final(self).wf(),
            final(self)@ == spec_batch_add(
                old(self)@,
                texture,
                DrawItem { pos, scale, dest_size },
            ),
    {
        let item = DrawItem { pos, scale, dest_size };
        let n = self.groups.len();
        let mut i: usize = 0;
        while i < n
            invariant
                n == self@.len(),
                i <= n,
                self@ == old(self)@,
                old(self).wf(),
                item == (DrawItem { pos, scale, dest_size }),
                forall|k: int| 0 <= k < i ==> self@[k].texture != texture,
            decreases n - i,
        {
            proof {
                assert(self@[i as int] == self.groups@[i as int]@);
            }
            if self.groups[i].texture == texture {
                let ghost b0 = self@;
                let ghost gi = i as int;
                let mut g = self.groups.remove(i);
                let ghost items0 = g.items@;
                g.items.push(item);
                self.groups.insert(i, g);
                proof {
                    assert(b0[gi].texture == texture);
                    assert(b0[gi].items == items0);
                    assert(has_texture_group(b0, texture));
                    lemma_texture_group_unique(b0, texture, gi);
                    assert(self@ =~= b0.update(
                        gi,
                        TextureGroupView { texture, items: items0.push(item) },
                    ));
                    assert(spec_batch_add(b0, texture, item) == b0.update(
                        gi,
                        TextureGroupView { texture, items: b0[gi].items.push(item) },
                    ));
                    assert(self@ == spec_batch_add(b0, texture, item));
                    assert forall|a: int, c: int|
                        0 <= a < c < self@.len() implies self@[a].texture != self@[c].texture by {
                        assert(b0[a].texture != b0[c].texture);
                    }
                }
                return ;
            }
            i = i + 1;
        }
        let mut items_v: Vec<DrawItem> = Vec::new();
        items_v.push(item);
        self.groups.push(TextureGroup { texture, items: items_v });
        proof {
            assert(!has_texture_group(old(self)@, texture));
            assert(self@ =~= old(self)@.push(TextureGroupView { texture, items: seq![item] }));
            assert forall|a: int, c: int|
                0 <= a < c < self@.len() implies self@[a].texture != self@[c].texture by {
                if c < self@.len() - 1 {
                    assert(old(self)@[a].texture != old(self)@[c].texture);
                } else {
                    assert(old(self)@[a].texture != texture);
                }
            }
        }
    }

    /// Discards every queued submission.
    pub fn clear(&mut self)
        ensures
            final(self)@ =~= Seq::<TextureGroupView>::empty(),
            final(self).wf(),
    {
        self.groups.clear();
    }
}

/// The batch `b` after adding each command of `cmds` in order; a command is
/// a texture handle with its submission.
pub open spec fn spec_batch_add_all(
    b: Seq<TextureGroupView>,
    cmds: Seq<(u64, DrawItem)>,
) -> Seq<TextureGroupView>
    decreases cmds.len(),
{
    if cmds.len() == 0 {
        b
    } else {
        let prev = spec_batch_add_all(b, cmds.drop_last());
        spec_batch_add(prev, cmds.last().0, cmds.last().1)
    }
}

} // verus!
