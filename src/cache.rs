//! The per-entity cache of composed atlases, when it is refreshed, and the
//! per-frame extraction of its atlases as positioned draw primitives.
use std::collections::HashMap;
use vstd::prelude::*;
use crate::layout::{
    FontMetrics, ImageModel, Layer, LayoutItem, OutlinedText, OutlinedTextSection,
    JustifyOutlinedText, ShapedGlyph, TextAnchor, Frame, bitmap_ok, create_glyph_images,
    cursor, final_x, final_y, frame, images_upto, item_ok, laid_out, layout_input_ok, line_of,
    outline_images, placed,
};
use crate::raster::GlyphBitmap;
use crate::compose::{
    AtlasModel, ComposedAtlas, atlas_of, canvas, compose_glyph_images, fits,
    lemma_single_image_atlas, of_layer, views,
};

verus! {

broadcast use vstd::std_specs::hash::group_hash_axioms;

/// A composed atlas with the identity of the image made of it.
#[derive(Debug)]
pub struct CachedAtlas {
    pub image_id: u64,
    pub atlas: ComposedAtlas,
}

pub struct CachedModel {
    pub image_id: u64,
    pub atlas: AtlasModel,
}

impl View for CachedAtlas {
    type V = CachedModel;

    open spec fn view(&self) -> CachedModel {
        CachedModel { image_id: self.image_id, atlas: self.atlas@ }
    }
}

/// One atlas to draw for an entity: the image, and its bottom-left corner
/// relative to the entity's transform (fine units) and depth.
#[derive(Clone, Copy, Debug, PartialEq, Eq, Structural)]
pub struct DrawPrimitive {
    pub entity: u64,
    pub image_id: u64,
    pub x: i64,
    pub y: i64,
    pub z: i32,
}

/// The atlas of one layer of a text's images, where it has any and it can
/// be held.
pub open spec fn layer_atlas(imgs: Seq<ImageModel>, layer: Layer) -> Seq<AtlasModel> {
    let g = of_layer(imgs, layer);
    if g.len() > 0 && fits(canvas(g)) {
        seq![atlas_of(g, layer)]
    } else {
        seq![]
    }
}

/// The atlases of a text's images: fill first, then outline.
pub open spec fn composed(imgs: Seq<ImageModel>) -> Seq<AtlasModel> {
    layer_atlas(imgs, Layer::Fill) + layer_atlas(imgs, Layer::Outline)
}

pub open spec fn text_atlases(
    sections: Seq<OutlinedTextSection>,
    justify: JustifyOutlinedText,
    items: Seq<LayoutItem>,
    m: FontMetrics,
    anchor: TextAnchor,
) -> Seq<AtlasModel> {
    composed(laid_out(sections, justify, items, m, anchor))
}

/// The atlases, given image identities counted up from `first`.
pub open spec fn numbered(atlases: Seq<AtlasModel>, first: int) -> Seq<CachedModel> {
    Seq::new(
        atlases.len(),
        |i: int| CachedModel { image_id: (first + i) as u64, atlas: atlases[i] },
    )
}

pub open spec fn draw_of(entity: u64, c: CachedModel) -> DrawPrimitive {
    DrawPrimitive {
        entity,
        image_id: c.image_id,
        x: c.atlas.x as i64,
        y: c.atlas.y as i64,
        z: c.atlas.layer.spec_z() as i32,
    }
}

/// What extraction emits for `entity`: one primitive for each cached atlas,
/// nothing where the entity has no entry.
pub open spec fn extracted(cache: Map<u64, Seq<CachedModel>>, entity: u64) -> Seq<DrawPrimitive> {
    if cache.contains_key(entity) {
        cache[entity].map_values(|c: CachedModel| draw_of(entity, c))
    } else {
        seq![]
    }
}

/// The cache: for each entity with a text, its composed atlases.
pub struct OutlinedGlyphs {
    cache: HashMap<u64, Vec<CachedAtlas>>,
    next_image_id: u64,
}

impl View for OutlinedGlyphs {
    type V = Map<u64, Seq<CachedModel>>;

    closed spec fn view(&self) -> Map<u64, Seq<CachedModel>> {
        self.cache@.map_values(|v: Vec<CachedAtlas>| v@.map_values(|a: CachedAtlas| a@))
    }
}

impl OutlinedGlyphs {
    /// The identity that the next composed image will get.
    pub closed spec fn next_id(&self) -> int {
        self.next_image_id as int
    }

    /// Every cached image has an identity below the next one.
    pub closed spec fn wf(&self) -> bool {
        forall|e: u64, i: int|
            #![trigger self@[e][i]]
            self@.contains_key(e) && 0 <= i < self@[e].len() ==> self@[e][i].image_id
                < self.next_id()
    }

    pub fn new() -> (r: Self)
        ensures
            r@ == Map::<u64, Seq<CachedModel>>::empty(),
            r.wf(),
            r.next_id() == 0,
    {
        let r = OutlinedGlyphs { cache: HashMap::new(), next_image_id: 0 };
        assert(r@ =~= Map::<u64, Seq<CachedModel>>::empty());
        r
    }

    /// The identity that the next composed image will get.
    pub fn next_image_id(&self) -> (r: u64)
        ensures
            r == self.next_id(),
    {
        self.next_image_id
    }

    /// Whether `entity`'s atlases must be recomputed: after a change of the
    /// display's scale factor, of its text or of its anchor, or when it has
    /// no entry yet.
    pub fn needs_recompute(
        &self,
        entity: u64,
        factor_changed: bool,
        text_changed: bool,
        anchor_changed: bool,
    ) -> (r: bool)
        ensures
            r == (factor_changed || text_changed || anchor_changed || !self@.contains_key(entity)),
    {
        factor_changed || text_changed || anchor_changed || !self.cache.contains_key(&entity)
    }

    /// Forgets `entity`'s atlases, once its text is removed.
    pub fn remove(&mut self, entity: u64)
        requires
            old(self).wf(),
        ensures
            final(self).wf(),
            final(self)@ == old(self)@.remove(entity),
            final(self).next_id() == old(self).next_id(),
    {
        self.cache.remove(&entity);
        assert(self@ =~= old(self)@.remove(entity));
    }

    /// The cached atlases of `entity`.
    pub fn atlases(&self, entity: u64) -> (r: Option<&Vec<CachedAtlas>>)
        ensures
            match r {
                None => !self@.contains_key(entity),
                Some(v) => self@.contains_key(entity) && v@.map_values(|a: CachedAtlas| a@)
                    == self@[entity],
            },
    {
        self.cache.get(&entity)
    }

    fn push_atlas(&mut self, entry: &mut Vec<CachedAtlas>, atlas: ComposedAtlas)
        requires
            old(self).next_id() < u64::MAX,
        ensures
            final(self).cache == old(self).cache,
            final(self).next_id() == old(self).next_id() + 1,
            final(entry)@ == old(entry)@.push(CachedAtlas { image_id: old(self).next_image_id, atlas }),
    {
        entry.push(CachedAtlas { image_id: self.next_image_id, atlas });
        self.next_image_id = self.next_image_id + 1;
    }

    /// Lays out and composes `entity`'s text, and caches the atlases under
    /// new image identities, in place of any it had.
    pub fn create_missing_text(
        &mut self,
        entity: u64,
        text: &OutlinedText,
        items: &Vec<LayoutItem>,
        metrics: &FontMetrics,
        anchor: &TextAnchor,
    )
        requires
            old(self).wf(),
            old(self).next_id() + 2 <= u64::MAX,
            layout_input_ok(text.sections@.len() as int, items@, *metrics, *anchor),
        ensures
            final(self).wf(),
            final(self)@ == old(self)@.insert(
                entity,
                numbered(
                    text_atlases(text.sections@, text.justify, items@, *metrics, *anchor),
                    old(self).next_id(),
                ),
            ),
            final(self).next_id() == old(self).next_id() + text_atlases(
                text.sections@,
                text.justify,
                items@,
                *metrics,
                *anchor,
            ).len(),
            forall|e: u64, j: int, i: int|
                old(self)@.contains_key(e) && 0 <= j < old(self)@[e].len() && 0 <= i < final(self)@[entity].len()
                    ==> #[trigger] final(self)@[entity][i].image_id
                    != #[trigger] old(self)@[e][j].image_id,
    {
        let ghost imgs = laid_out(text.sections@, text.justify, items@, *metrics, *anchor);
        let ghost first = self.next_id();
        let images = create_glyph_images(text, items, metrics, anchor);
        assert(views(images@) == imgs);
        let mut entry: Vec<CachedAtlas> = Vec::new();
        match compose_glyph_images(&images, Layer::Fill) {
            Some(a) => self.push_atlas(&mut entry, a),
            None => {},
        }
        assert(entry@.map_values(|a: CachedAtlas| a@) =~= numbered(
            layer_atlas(imgs, Layer::Fill),
            first,
        ));
        match compose_glyph_images(&images, Layer::Outline) {
            Some(a) => self.push_atlas(&mut entry, a),
            None => {},
        }
        let ghost entry_view = entry@.map_values(|a: CachedAtlas| a@);
        assert(entry_view =~= numbered(composed(imgs), first));
        let ghost old_view = self@;
        self.cache.insert(entity, entry);
        assert(self@ =~= old_view.insert(entity, entry_view));
        assert forall|e: u64, i: int|
            self@.contains_key(e) && 0 <= i < self@[e].len() implies #[trigger] self@[e][i].image_id
            < self.next_id() by {
            if e != entity {
                assert(old_view[e][i] == self@[e][i]);
            }
        }
        assert forall|e: u64, j: int, i: int|
            old_view.contains_key(e) && 0 <= j < old_view[e].len() && 0 <= i < self@[entity].len()
                implies #[trigger] self@[entity][i].image_id != #[trigger] old_view[e][j].image_id by {
            assert(old_view[e][j].image_id < first);
            assert(self@[entity][i].image_id == first + i);
        }
    }

    /// The draw primitives of `entity`'s cached atlases, in cache order.
    pub fn extract_outlined_text(&self, entity: u64) -> (r: Vec<DrawPrimitive>)
        ensures
            r@ == extracted(self@, entity),
    {
        let mut out: Vec<DrawPrimitive> = Vec::new();
        match self.cache.get(&entity) {
            None => {
                assert(out@ =~= extracted(self@, entity));
            },
            Some(entry) => {
                let ghost cached = self@[entity];
                assert(cached == entry@.map_values(|a: CachedAtlas| a@));
                let mut i: usize = 0;
                while i < entry.len()
                    invariant
                        i <= entry@.len(),
                        cached == entry@.map_values(|a: CachedAtlas| a@),
                        out@ == cached.take(i as int).map_values(
                            |c: CachedModel| draw_of(entity, c),
                        ),
                    decreases entry@.len() - i,
                {
                    let a = &entry[i];
                    out.push(
                        DrawPrimitive {
                            entity,
                            image_id: a.image_id,
                            x: a.atlas.x,
                            y: a.atlas.y,
                            z: a.atlas.layer.z_layer(),
                        },
                    );
                    assert(cached[i as int] == a@);
                    assert(out@ =~= cached.take(i as int + 1).map_values(
                        |c: CachedModel| draw_of(entity, c),
                    ));
                    i = i + 1;
                }
                assert(cached.take(entry@.len() as int) =~= cached);
            },
        }
        out
    }
}

proof fn lemma_no_outline_images(
    items: Seq<LayoutItem>,
    sections: Seq<OutlinedTextSection>,
    f: Frame,
    k: int,
)
    requires
        0 <= k <= items.len(),
        forall|s: int| 0 <= s < sections.len() ==> (#[trigger] sections[s]).outline is NoOutline,
        forall|i: int| 0 <= i < items.len() ==> item_ok(#[trigger] items[i], sections.len() as int),
    ensures
        forall|j: int|
            0 <= j < images_upto(items, sections, f, k).len() ==> (#[trigger] images_upto(
                items,
                sections,
                f,
                k,
            )[j]).layer == Layer::Fill,
    decreases k,
{
    if k > 0 {
        lemma_no_outline_images(items, sections, f, k - 1);
        assert(item_ok(items[k - 1], sections.len() as int));
        match items[k - 1] {
            LayoutItem::Glyph(g) => {
                assert(sections[g.section as int].outline is NoOutline);
            },
            LayoutItem::LineBreak => {},
        }
    }
}

proof fn lemma_of_layer_absent(s: Seq<ImageModel>, layer: Layer)
    requires
        forall|j: int| 0 <= j < s.len() ==> (#[trigger] s[j]).layer != layer,
    ensures
        of_layer(s, layer).len() == 0,
    decreases s.len(),
{
    if s.len() > 0 {
        let p = s.drop_last();
        assert forall|j: int| 0 <= j < p.len() implies (#[trigger] p[j]).layer != layer by {
            assert(p[j] == s[j]);
        }
        lemma_of_layer_absent(p, layer);
        assert(s[s.len() - 1].layer != layer);
    }
}

/// A text none of whose sections asks for an outline gets at most one
/// atlas, and it is a fill atlas.
pub proof fn lemma_no_outline_atlas(
    sections: Seq<OutlinedTextSection>,
    justify: JustifyOutlinedText,
    items: Seq<LayoutItem>,
    m: FontMetrics,
    anchor: TextAnchor,
)
    requires
        layout_input_ok(sections.len() as int, items, m, anchor),
        forall|s: int| 0 <= s < sections.len() ==> (#[trigger] sections[s]).outline is NoOutline,
    ensures
        text_atlases(sections, justify, items, m, anchor).len() <= 1,
        forall|i: int|
            0 <= i < text_atlases(sections, justify, items, m, anchor).len() ==> (
            #[trigger] text_atlases(sections, justify, items, m, anchor)[i]).layer == Layer::Fill,
{
    let f = frame(items, m, anchor, justify);
    let imgs = laid_out(sections, justify, items, m, anchor);
    lemma_no_outline_images(items, sections, f, items.len() as int);
    lemma_of_layer_absent(imgs, Layer::Outline);
    assert(layer_atlas(imgs, Layer::Outline) =~= Seq::<AtlasModel>::empty());
    assert(composed(imgs) =~= layer_atlas(imgs, Layer::Fill));
}

/// A text of one glyph with an inked fill: its first atlas is the fill
/// atlas, exactly the size of the glyph's bitmap, with its corner where
/// layout placed the bitmap.
pub proof fn lemma_single_glyph_atlas(
    sections: Seq<OutlinedTextSection>,
    justify: JustifyOutlinedText,
    items: Seq<LayoutItem>,
    m: FontMetrics,
    anchor: TextAnchor,
    g: ShapedGlyph,
    b: GlyphBitmap,
)
    requires
        layout_input_ok(sections.len() as int, items, m, anchor),
        items == seq![LayoutItem::Glyph(g)],
        g.fill == Some(b),
        b.is_visible(),
    ensures
        ({
            let f = frame(items, m, anchor, justify);
            let atlases = text_atlases(sections, justify, items, m, anchor);
            &&& atlases.len() >= 1
            &&& atlases[0].layer == Layer::Fill
            &&& atlases[0].width == b.width
            &&& atlases[0].height == b.height
            &&& atlases[0].x == final_x(f, 0, b.left as int, 0)
            &&& atlases[0].y == final_y(f, b.top as int, b.height as int, 0)
        }),
{
    let f = frame(items, m, anchor, justify);
    let imgs = laid_out(sections, justify, items, m, anchor);
    assert(items.take(0) =~= Seq::<LayoutItem>::empty());
    assert(cursor(items, 0) == 0);
    assert(line_of(items, 0) == 0);
    assert(item_ok(items[0], sections.len() as int));
    let outline = outline_images(g, sections, f, 0, 0);
    let fill = placed(b, Layer::Fill, sections[g.section as int].color, f, 0, 0);
    assert(images_upto(items, sections, f, 0) =~= Seq::<ImageModel>::empty());
    assert(imgs =~= outline + seq![fill]);
    assert forall|j: int| 0 <= j < outline.len() implies (#[trigger] outline[j]).layer
        != Layer::Fill by {}
    lemma_of_layer_absent(outline, Layer::Fill);
    assert((outline + seq![fill]).drop_last() =~= outline);
    assert(of_layer(imgs, Layer::Fill) =~= seq![fill]);
    assert(bitmap_ok(b));
    lemma_single_image_atlas(fill, Layer::Fill);
    assert(4 * fill.width * fill.height <= 0x4000_0000) by (nonlinear_arith)
        requires
            fill.width <= 0x4000,
            fill.height <= 0x4000,
    ;
    assert(fits(canvas(seq![fill])));
}

/// Once an entity's entry is removed, extraction emits nothing for it.
pub proof fn lemma_removed_extracts_nothing(cache: Map<u64, Seq<CachedModel>>, entity: u64)
    ensures
        extracted(cache.remove(entity), entity) == Seq::<DrawPrimitive>::empty(),
{
    assert(extracted(cache.remove(entity), entity) =~= Seq::<DrawPrimitive>::empty());
}

/// Two caches refreshed from the same text, shaping, metrics and anchor
/// hold for it the same atlases, pixel for pixel, whatever identities their
/// images were given.
pub proof fn lemma_recompute_deterministic(
    c1: Map<u64, Seq<CachedModel>>,
    c2: Map<u64, Seq<CachedModel>>,
    entity: u64,
    first1: int,
    first2: int,
    sections: Seq<OutlinedTextSection>,
    justify: JustifyOutlinedText,
    items: Seq<LayoutItem>,
    m: FontMetrics,
    anchor: TextAnchor,
)
    requires
        c1.contains_key(entity),
        c2.contains_key(entity),
        c1[entity] == numbered(text_atlases(sections, justify, items, m, anchor), first1),
        c2[entity] == numbered(text_atlases(sections, justify, items, m, anchor), first2),
    ensures
        c1[entity].len() == c2[entity].len(),
        forall|i: int|
            0 <= i < c1[entity].len() ==> (#[trigger] c1[entity][i]).atlas == c2[entity][i].atlas,
{
}

} // verus!
