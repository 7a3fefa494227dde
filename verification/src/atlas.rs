//! The glyph atlas: one fixed-size bitmap per character, all entries sharing
//! the same cell width and height, kept in ascending code-point order.
//!
//! The builder consumes pre-rasterized glyph data (coverage bitmaps and
//! metrics) as plain values; rasterizing a font is the caller's business.

use vstd::prelude::*;
use vstd::string::StringExecFns;
use crate::AsciiArtError;

verus! {

/// One character's raw rasterization result: its glyph index in the font
/// (0 means the font maps it to the fallback glyph), its rendered height in
/// pixels, and its natural coverage bitmap, row-major, where a higher byte
/// means more ink.
pub struct RasterGlyph {
    pub ch: char,
    pub glyph_index: u16,
    pub height: u32,
    pub coverage: Vec<u8>,
}

/// Every byte inverted: ink (high coverage) becomes low, background high.
pub open spec fn invert_bytes(s: Seq<u8>) -> Seq<u8> {
    Seq::new(s.len(), |i: int| (255 - s[i]) as u8)
}

/// The cell bitmap of a coverage buffer: the inverted bytes, then background
/// (255) bytes appended at the end of the flat buffer until `area` bytes.
///
/// Padding is appended flat, not per row: a glyph narrower than the cell
/// keeps its own row stride and shifts visually inside the cell.
pub open spec fn glyph_bitmap(cov: Seq<u8>, area: nat) -> Seq<u8>
    recommends
        cov.len() <= area,
{
    invert_bytes(cov) + Seq::new((area - cov.len()) as nat, |i: int| 255u8)
}

/// The tallest rendered height among the glyphs.
pub open spec fn max_glyph_height(gs: Seq<RasterGlyph>) -> nat
    decreases gs.len(),
{
    if gs.len() == 0 {
        0
    } else {
        let rest = max_glyph_height(gs.drop_last());
        if gs.last().height as nat > rest {
            gs.last().height as nat
        } else {
            rest
        }
    }
}

/// The shared cell height: the tallest rendered glyph, but never below the
/// nominal pixel size.
pub open spec fn spec_cell_height(gs: Seq<RasterGlyph>, px: u32) -> nat {
    if max_glyph_height(gs) > px as nat {
        max_glyph_height(gs)
    } else {
        px as nat
    }
}

/// Every glyph of the range is renderable: none maps to the fallback glyph.
pub open spec fn all_renderable(gs: Seq<RasterGlyph>) -> bool {
    forall|i: int| 0 <= i < gs.len() ==> (#[trigger] gs[i]).glyph_index != 0
}

/// The range holds the character.
pub open spec fn range_contains(gs: Seq<RasterGlyph>, ch: char) -> bool {
    exists|i: int| 0 <= i < gs.len() && (#[trigger] gs[i]).ch == ch
}

/// The cell bitmap the range yields for `ch`: the one of the last glyph
/// with that character — a later duplicate overwrites an earlier one, as
/// inserting into a map does.
pub open spec fn range_bitmap(gs: Seq<RasterGlyph>, ch: char, area: nat) -> Seq<u8>
    recommends
        range_contains(gs, ch),
    decreases gs.len(),
{
    if gs.len() == 0 {
        Seq::empty()
    } else if gs.last().ch == ch {
        glyph_bitmap(gs.last().coverage@, area)
    } else {
        range_bitmap(gs.drop_last(), ch, area)
    }
}

/// When every coverage buffer fits the cell, the kept bitmap is exactly one
/// cell in size.
proof fn lemma_range_bitmap_len(gs: Seq<RasterGlyph>, ch: char, area: nat)
    requires
        range_contains(gs, ch),
        forall|i: int| 0 <= i < gs.len() ==> (#[trigger] gs[i]).coverage@.len() <= area,
    ensures
        range_bitmap(gs, ch, area).len() == area,
    decreases gs.len(),
{
    if gs.last().ch == ch {
    } else {
        let w = choose|i: int| 0 <= i < gs.len() && (#[trigger] gs[i]).ch == ch;
        assert(gs.drop_last()[w] == gs[w]);
        lemma_range_bitmap_len(gs.drop_last(), ch, area);
    }
}

/// One more glyph extends the range by exactly its character.
proof fn lemma_range_contains_step(gs: Seq<RasterGlyph>, i: int, ch: char)
    requires
        0 <= i < gs.len(),
    ensures
        range_contains(gs.take(i + 1), ch) <==> (range_contains(gs.take(i), ch) || gs[i].ch == ch),
{
    if range_contains(gs.take(i + 1), ch) {
        let w = choose|j: int| 0 <= j < gs.take(i + 1).len() && (#[trigger] gs.take(i + 1)[j]).ch
            == ch;
        if w < i {
            assert(gs.take(i)[w].ch == ch);
        }
    }
    if range_contains(gs.take(i), ch) {
        let w = choose|j: int| 0 <= j < gs.take(i).len() && (#[trigger] gs.take(i)[j]).ch == ch;
        assert(gs.take(i + 1)[w].ch == ch);
    }
    if gs[i].ch == ch {
        assert(gs.take(i + 1)[i].ch == ch);
    }
}

/// The entries ascend strictly by code point.
pub open spec fn sorted_entries(s: Seq<(char, Vec<u8>)>) -> bool {
    forall|i: int, j: int|
        0 <= i < j < s.len() ==> (#[trigger] s[i]).0 < (#[trigger] s[j]).0
}

/// The entry list holds the character.
pub open spec fn entries_contain(s: Seq<(char, Vec<u8>)>, ch: char) -> bool {
    exists|i: int| 0 <= i < s.len() && (#[trigger] s[i]).0 == ch
}

/// The position of the character among the entries.
pub open spec fn entry_index(s: Seq<(char, Vec<u8>)>, ch: char) -> int {
    choose|i: int| 0 <= i < s.len() && (#[trigger] s[i]).0 == ch
}

/// In a sorted entry list each character appears at most once, so a
/// matching position is the position of the character.
pub proof fn lemma_entry_index_unique(s: Seq<(char, Vec<u8>)>, i: int, ch: char)
    requires
        sorted_entries(s),
        0 <= i < s.len(),
        s[i].0 == ch,
    ensures
        entries_contain(s, ch),
        entry_index(s, ch) == i,
{
    assert(entries_contain(s, ch));
    let j = entry_index(s, ch);
    if i < j {
        assert(s[i].0 < s[j].0);
    } else if j < i {
        assert(s[j].0 < s[i].0);
    }
}

/// A glyph atlas: the shared cell size and, per character of the range, a
/// cell-sized bitmap using the image convention (0 ink, 255 background).
pub struct GlyphBmpData {
    pub name: String,
    pub width: u32,
    pub height: u32,
    pub data: Vec<(char, Vec<u8>)>,
}

impl GlyphBmpData {
    /// The number of bytes of one cell bitmap.
    pub open spec fn cell_area(&self) -> nat {
        (self.width as nat) * (self.height as nat)
    }

    /// Well-formed: non-empty, entries strictly ascending by code point, and
    /// every bitmap exactly one cell in size.
    pub open spec fn wf(&self) -> bool {
        &&& self.data@.len() > 0
        &&& sorted_entries(self.data@)
        &&& forall|i: int|
            0 <= i < self.data@.len() ==> (#[trigger] self.data@[i]).1@.len() == self.cell_area()
    }

    /// The atlas has an entry for `ch`.
    pub open spec fn spec_contains(&self, ch: char) -> bool {
        entries_contain(self.data@, ch)
    }

    /// The position of `ch` among the entries.
    pub open spec fn index_of(&self, ch: char) -> int {
        entry_index(self.data@, ch)
    }

    /// The bitmap stored for `ch`.
    pub open spec fn bitmap_of(&self, ch: char) -> Seq<u8> {
        self.data@[self.index_of(ch)].1@
    }

    /// In a well-formed atlas each character appears at most once, so a
    /// matching position is the position of the character.
    pub proof fn lemma_index_of_unique(&self, i: int, ch: char)
        requires
            self.wf(),
            0 <= i < self.data@.len(),
            self.data@[i].0 == ch,
        ensures
            self.spec_contains(ch),
            self.index_of(ch) == i,
    {
        lemma_entry_index_unique(self.data@, i, ch);
    }

    /// Uniformity law: in a well-formed atlas every entry's bitmap length
    /// equals `width * height`, the shared cell dimensions.
    pub proof fn lemma_atlas_uniform(&self)
        requires
            self.wf(),
        ensures
            forall|i: int|
                0 <= i < self.data@.len() ==> (#[trigger] self.data@[i]).1@.len() == (
                self.width as nat) * (self.height as nat),
    {
    }

    /// Finds the entry for `ch`, if any.
    #[verifier::loop_isolation(false)]
    pub fn lookup(&self, ch: char) -> (r: Option<usize>)
        requires
            self.wf(),
        ensures
            match r {
                Some(i) => i < self.data@.len() && self.data@[i as int].0 == ch && i as int
                    == self.index_of(ch) && self.spec_contains(ch),
                None => !self.spec_contains(ch),
            },
    {
        let mut i: usize = 0;
        while i < self.data.len()
            invariant
                i <= self.data@.len(),
                forall|j: int| 0 <= j < i ==> (#[trigger] self.data@[j]).0 != ch,
            decreases self.data@.len() - i,
        {
            if self.data[i].0 == ch {
                proof {
                    self.lemma_index_of_unique(i as int, ch);
                }
                return Some(i);
            }
            i = i + 1;
        }
        None
    }

    /// The shared cell size: width is the advance width of the space
    /// character; height is the tallest rendered glyph, floored at the
    /// nominal pixel size.
    #[verifier::loop_isolation(false)]
    fn extract_glyph_size(glyphs: &Vec<RasterGlyph>, space_advance: u32, px: u32) -> (r: (u32, u32))
        requires
            glyphs@.len() > 0,
        ensures
            r.0 == space_advance,
            r.1 as nat == spec_cell_height(glyphs@, px),
    {
        let mut min_height: u32 = 0;
        let mut i: usize = 0;
        while i < glyphs.len()
            invariant
                i <= glyphs@.len(),
                min_height as nat == max_glyph_height(glyphs@.take(i as int)),
            decreases glyphs@.len() - i,
        {
            let gh = glyphs[i].height;
            if gh > min_height {
                min_height = gh;
            }
            i = i + 1;
            proof {
                assert(glyphs@.take(i as int).drop_last() =~= glyphs@.take(i as int - 1));
            }
        }
        proof {
            assert(glyphs@.take(glyphs@.len() as int) =~= glyphs@);
        }
        let height = if min_height > px {
            min_height
        } else {
            px
        };
        (space_advance, height)
    }

    /// True when every character of the range has a real glyph in the font.
    #[verifier::loop_isolation(false)]
    fn is_valid_range(glyphs: &Vec<RasterGlyph>) -> (r: bool)
        ensures
            r == all_renderable(glyphs@),
    {
        let mut i: usize = 0;
        while i < glyphs.len()
            invariant
                i <= glyphs@.len(),
                forall|j: int| 0 <= j < i ==> (#[trigger] glyphs@[j]).glyph_index != 0,
            decreases glyphs@.len() - i,
        {
            if glyphs[i].glyph_index == 0 {
                return false;
            }
            i = i + 1;
        }
        true
    }

    /// Builds the atlas from pre-rasterized glyph data.
    ///
    /// `space_advance` is the advance width of the space character at the
    /// nominal pixel size `px`, rounded down to an integer; `glyphs` holds
    /// the rasterization of every character of the range, in any order.
    ///
    /// Fails with `EmptyRange` on an empty range, with
    /// `UnrenderableCharacter` when some character has no glyph in the font.
    /// Otherwise the atlas holds one entry per distinct character of the
    /// range — a later duplicate wins — whose bitmap is the glyph's inverted
    /// coverage buffer, padded flat at the end with background bytes to
    /// exactly one cell.
    #[verifier::loop_isolation(false)]
    pub fn new(space_advance: u32, glyphs: &Vec<RasterGlyph>, px: u32) -> (r: Result<
        GlyphBmpData,
        AsciiArtError,
    >)
        requires
            forall|i: int|
                0 <= i < glyphs@.len() ==> (#[trigger] glyphs@[i]).coverage@.len() <= (
                space_advance as nat) * spec_cell_height(glyphs@, px),
            (space_advance as nat) * spec_cell_height(glyphs@, px) <= usize::MAX as nat,
        ensures
            match r {
                Ok(a) => {
                    &&& glyphs@.len() > 0
                    &&& all_renderable(glyphs@)
                    &&& a.wf()
                    &&& a.name@ == "d2coding"@
                    &&& a.width == space_advance
                    &&& a.height as nat == spec_cell_height(glyphs@, px)
                    &&& forall|c: char|
                        a.spec_contains(c) <==> range_contains(glyphs@, c)
                    &&& forall|c: char|
                        range_contains(glyphs@, c) ==> a.bitmap_of(c) == range_bitmap(
                            glyphs@,
                            c,
                            a.cell_area(),
                        )
                },
                Err(e) => if glyphs@.len() == 0 {
                    e == AsciiArtError::EmptyRange
                } else {
                    !all_renderable(glyphs@) && e == AsciiArtError::UnrenderableCharacter
                },
            },
    {
        if glyphs.len() == 0 {
            return Err(AsciiArtError::EmptyRange);
        }
        if !Self::is_valid_range(glyphs) {
            return Err(AsciiArtError::UnrenderableCharacter);
        }
        let (width, height) = Self::extract_glyph_size(glyphs, space_advance, px);
        let area: usize = (width as usize) * (height as usize);
        let mut data: Vec<(char, Vec<u8>)> = Vec::new();
        let mut i: usize = 0;
        while i < glyphs.len()
            invariant
                i <= glyphs@.len(),
                sorted_entries(data@),
                forall|c: char|
                    entries_contain(data@, c) <==> range_contains(glyphs@.take(i as int), c),
                forall|j: int|
                    0 <= j < data@.len() ==> (#[trigger] data@[j]).1@ == range_bitmap(
                        glyphs@.take(i as int),
                        data@[j].0,
                        area as nat,
                    ),
            decreases glyphs@.len() - i,
        {
            let g = &glyphs[i];
            let mut bmp: Vec<u8> = Vec::new();
            let mut k: usize = 0;
            while k < g.coverage.len()
                invariant
                    k <= g.coverage@.len(),
                    bmp@.len() == k,
                    forall|t: int| 0 <= t < k ==> bmp@[t] == (255 - g.coverage@[t]) as u8,
                decreases g.coverage@.len() - k,
            {
                bmp.push(255 - g.coverage[k]);
                k = k + 1;
            }
            while bmp.len() < area
                invariant
                    g.coverage@.len() <= bmp@.len() <= area,
                    forall|t: int|
                        0 <= t < g.coverage@.len() ==> bmp@[t] == (255 - g.coverage@[t]) as u8,
                    forall|t: int| g.coverage@.len() <= t < bmp@.len() ==> bmp@[t] == 255u8,
                decreases area - bmp@.len(),
            {
                bmp.push(255u8);
            }
            proof {
                assert(bmp@ =~= glyph_bitmap(g.coverage@, area as nat));
            }
            let ghost gb = bmp@;
            let ghost pre = data@;
            insert_entry(&mut data, g.ch, bmp);
            proof {
                let t1 = glyphs@.take(i as int + 1);
                assert(t1.drop_last() =~= glyphs@.take(i as int));
                assert(t1.last() == glyphs@[i as int]);
                assert forall|c: char| entries_contain(data@, c) <==> range_contains(
                    glyphs@.take(i as int + 1),
                    c,
                ) by {
                    lemma_range_contains_step(glyphs@, i as int, c);
                }
                assert forall|j: int| 0 <= j < data@.len() implies (#[trigger] data@[j]).1@
                    == range_bitmap(glyphs@.take(i as int + 1), data@[j].0, area as nat) by {
                    if data@[j].0 == glyphs@[i as int].ch {
                        assert(data@[j].1@ == gb);
                        assert(range_bitmap(t1, data@[j].0, area as nat) == glyph_bitmap(
                            glyphs@[i as int].coverage@,
                            area as nat,
                        ));
                    } else {
                        let oj = entry_index(pre, data@[j].0);
                        assert(0 <= oj < pre.len() && pre[oj].0 == data@[j].0);
                        assert(pre[oj].1@ == range_bitmap(
                            glyphs@.take(i as int),
                            pre[oj].0,
                            area as nat,
                        ));
                        assert(range_bitmap(t1, data@[j].0, area as nat) == range_bitmap(
                            glyphs@.take(i as int),
                            data@[j].0,
                            area as nat,
                        ));
                    }
                }
            }
            i = i + 1;
        }
        proof {
            assert(glyphs@.take(glyphs@.len() as int) =~= glyphs@);
            assert(range_contains(glyphs@, glyphs@[0].ch));
            assert(data@.len() > 0) by {
                assert(entries_contain(data@, glyphs@[0].ch));
                let w = entry_index(data@, glyphs@[0].ch);
                assert(0 <= w < data@.len());
            }
            assert forall|j: int|
                0 <= j < data@.len() implies (#[trigger] data@[j]).1@.len() == area as nat by {
                assert(entries_contain(data@, data@[j].0));
                assert(range_contains(glyphs@, data@[j].0));
                lemma_range_bitmap_len(glyphs@, data@[j].0, area as nat);
            }
            assert forall|c: char| range_contains(glyphs@, c) implies data@[entry_index(
                data@,
                c,
            )].1@ == range_bitmap(glyphs@, c, area as nat) by {
                assert(entries_contain(data@, c));
                let w = entry_index(data@, c);
                assert(0 <= w < data@.len() && data@[w].0 == c);
            }
        }
        let name = <String as StringExecFns>::from_str("d2coding");
        let result = GlyphBmpData { name, width, height, data };
        proof {
            assert(result.cell_area() == area as nat);
        }
        Ok(result)
    }
}

/// Puts the bitmap for `ch` at its sorted position among the entries; an
/// entry already present for `ch` is overwritten.
#[verifier::loop_isolation(false)]
fn insert_entry(data: &mut Vec<(char, Vec<u8>)>, ch: char, bmp: Vec<u8>)
    requires
        sorted_entries(old(data)@),
    ensures
        sorted_entries(final(data)@),
        forall|c: char|
            entries_contain(final(data)@, c) <==> (entries_contain(old(data)@, c) || c == ch),
        forall|j: int|
            0 <= j < final(data)@.len() && (#[trigger] final(data)@[j]).0 == ch
                ==> final(data)@[j].1@ == bmp@,
        forall|j: int|
            0 <= j < final(data)@.len() && (#[trigger] final(data)@[j]).0 != ch ==> entries_contain(
                old(data)@,
                final(data)@[j].0,
            ) && final(data)@[j].1@ == old(data)@[entry_index(old(data)@, final(data)@[j].0)].1@,
{
    let ghost pre = data@;
    let ghost elt = (ch, bmp);
    let mut i: usize = 0;
    while i < data.len() && data[i].0 < ch
        invariant
            i <= data@.len(),
            forall|j: int| 0 <= j < i ==> (#[trigger] data@[j]).0 < ch,
        decreases data@.len() - i,
    {
        i = i + 1;
    }
    if i < data.len() && data[i].0 == ch {
        data.set(i, (ch, bmp));
        proof {
            assert forall|j: int| 0 <= j < data@.len() implies (#[trigger] data@[j]).0
                == pre[j].0 by {}
            assert forall|c: char| entries_contain(data@, c) <==> (entries_contain(pre, c) || c
                == ch) by {
                if entries_contain(data@, c) {
                    let w = choose|j: int| 0 <= j < data@.len() && (#[trigger] data@[j]).0 == c;
                    assert(pre[w].0 == c);
                }
                if entries_contain(pre, c) {
                    let w = choose|j: int| 0 <= j < pre.len() && (#[trigger] pre[j]).0 == c;
                    assert(data@[w].0 == c);
                }
                if c == ch {
                    assert(data@[i as int].0 == c);
                }
            }
            assert forall|j: int|
                0 <= j < data@.len() && (#[trigger] data@[j]).0 != ch implies entries_contain(
                pre,
                data@[j].0,
            ) && data@[j].1@ == pre[entry_index(pre, data@[j].0)].1@ by {
                assert(pre[j].0 == data@[j].0);
                lemma_entry_index_unique(pre, j, data@[j].0);
            }
            assert forall|j: int|
                0 <= j < data@.len() && (#[trigger] data@[j]).0 == ch implies data@[j].1@
                == bmp@ by {
                if j != i {
                    assert(pre[j].0 == ch && pre[i as int].0 == ch);
                    if j < i {
                        assert(pre[j].0 < pre[i as int].0);
                    } else {
                        assert(pre[i as int].0 < pre[j].0);
                    }
                }
            }
        }
    } else {
        proof {
            if i < data@.len() {
                assert(!(pre[i as int].0 < ch));
                assert(pre[i as int].0 != ch);
                assert(ch < pre[i as int].0);
            }
            pre.insert_ensures(i as int, elt);
        }
        data.insert(i, (ch, bmp));
        proof {
            assert(data@ == pre.insert(i as int, elt));
            assert(data@[i as int] == elt);
            assert forall|j: int|
                0 <= j < pre.len() && j >= i implies ch < (#[trigger] pre[j]).0 by {
                if j > i {
                    assert(pre[i as int].0 < pre[j].0);
                }
            }
            assert forall|j1: int, j2: int| 0 <= j1 < j2 < data@.len() implies (
            #[trigger] data@[j1]).0 < (#[trigger] data@[j2]).0 by {
                if j1 < i {
                    assert(data@[j1] == pre[j1]);
                }
                if j2 > i {
                    assert(data@[j2] == pre[j2 - 1]);
                }
            }
            assert forall|c: char| entries_contain(data@, c) <==> (entries_contain(pre, c) || c
                == ch) by {
                if entries_contain(data@, c) {
                    let w = choose|j: int| 0 <= j < data@.len() && (#[trigger] data@[j]).0 == c;
                    if w < i {
                        assert(pre[w].0 == c);
                    } else if w > i {
                        assert(pre[w - 1].0 == c);
                    }
                }
                if entries_contain(pre, c) {
                    let w = choose|j: int| 0 <= j < pre.len() && (#[trigger] pre[j]).0 == c;
                    if w < i {
                        assert(data@[w].0 == c);
                    } else {
                        assert(data@[w + 1].0 == c);
                    }
                }
                if c == ch {
                    assert(data@[i as int].0 == c);
                }
            }
            assert forall|j: int|
                0 <= j < data@.len() && (#[trigger] data@[j]).0 != ch implies entries_contain(
                pre,
                data@[j].0,
            ) && data@[j].1@ == pre[entry_index(pre, data@[j].0)].1@ by {
                if j < i {
                    assert(data@[j] == pre[j]);
                    lemma_entry_index_unique(pre, j, data@[j].0);
                } else {
                    assert(j != i);
                    assert(data@[j] == pre[j - 1]);
                    lemma_entry_index_unique(pre, j - 1, data@[j].0);
                }
            }
            assert forall|j: int|
                0 <= j < data@.len() && (#[trigger] data@[j]).0 == ch implies data@[j].1@
                == bmp@ by {
                if j < i {
                    assert(pre[j].0 < ch);
                    assert(data@[j] == pre[j]);
                } else if j > i {
                    assert(data@[j] == pre[j - 1]);
                    assert(ch < pre[j - 1].0);
                }
            }
        }
    }
}

} // verus!
