//! The tables that describe a font inside a PDF document: the association between glyph
//! identifiers, characters and glyph metrics, its division into the blocks of a character
//! map (`beginbfchar` ... `endbfchar`), the text of the character map, and the runs of
//! consecutive glyph identifiers with their widths.
use vstd::prelude::*;
use crate::strings::{decimal, hexadecimal, zero_padded, decimal_chars, hexadecimal_chars, pad_with_zeros, push_chars, push_str, str_chars, chars_to_string};
use crate::font::GlyphMetrics;

verus! {

/// A row of the glyph table: glyph identifier, Unicode code point, width and height.
pub type GlyphRow = (u32, u32, u32, u32);

/// Glyph identifiers strictly increase along the rows.
pub open spec fn rows_sorted(rows: Seq<GlyphRow>) -> bool {
    forall|i: int, j: int| 0 <= i < j < rows.len() ==> #[trigger] rows[i].0 < #[trigger] rows[j].0
}

/// The glyph identifiers of the input are distinct, positive and below 65536.
pub open spec fn glyphs_valid(glyphs: Seq<(u16, char, Option<GlyphMetrics>)>) -> bool {
    &&& forall|i: int| 0 <= i < glyphs.len() ==> #[trigger] glyphs[i].0 > 0
    &&& forall|i: int, j: int| 0 <= i < j < glyphs.len() ==> #[trigger] glyphs[i].0 != #[trigger] glyphs[j].0
}

/// The sum of the widths of the glyphs that have metrics.
pub open spec fn total_width(glyphs: Seq<(u16, char, Option<GlyphMetrics>)>) -> nat
    decreases glyphs.len(),
{
    if glyphs.len() == 0 {
        0
    } else {
        total_width(glyphs.drop_last()) + match glyphs.last().2 {
            Some(m) => m.width as nat,
            None => 0,
        }
    }
}

/// The largest height of the glyphs that have metrics, zero if none has.
pub open spec fn maximum_height(glyphs: Seq<(u16, char, Option<GlyphMetrics>)>) -> nat
    decreases glyphs.len(),
{
    if glyphs.len() == 0 {
        0
    } else {
        let rest = maximum_height(glyphs.drop_last());
        match glyphs.last().2 {
            Some(m) => if m.height > rest { m.height as nat } else { rest },
            None => rest,
        }
    }
}

/// The row that a glyph with metrics contributes to the table.
pub open spec fn glyph_row(g: (u16, char, Option<GlyphMetrics>)) -> GlyphRow {
    (g.0 as u32, g.1 as u32, g.2->Some_0.width, g.2->Some_0.height)
}

/// The rows of the glyph table: the row `(0, 0, 1000, 1000)` and one row for each glyph
/// that has metrics.
pub open spec fn glyph_table_rows(glyphs: Seq<(u16, char, Option<GlyphMetrics>)>) -> Set<GlyphRow>
    decreases glyphs.len(),
{
    if glyphs.len() == 0 {
        set![(0u32, 0u32, 1000u32, 1000u32)]
    } else {
        let rest = glyph_table_rows(glyphs.drop_last());
        if glyphs.last().2 is Some {
            rest.insert(glyph_row(glyphs.last()))
        } else {
            rest
        }
    }
}

/// The rows hold the rows of the glyph table, sorted by glyph identifier.
pub open spec fn is_glyph_table(rows: Seq<GlyphRow>, glyphs: Seq<(u16, char, Option<GlyphMetrics>)>) -> bool {
    &&& rows_sorted(rows)
    &&& rows.to_set() == glyph_table_rows(glyphs)
    &&& rows.len() >= 1
    &&& rows[0] == (0u32, 0u32, 1000u32, 1000u32)
}

/// Inserts a row into sorted rows whose identifiers all differ from the row's.
fn insert_sorted(rows: &mut Vec<GlyphRow>, row: GlyphRow)
    requires
        rows_sorted(old(rows)@),
        forall|i: int| 0 <= i < old(rows)@.len() ==> #[trigger] old(rows)@[i].0 != row.0,
        old(rows)@.len() < usize::MAX,
    ensures
        rows_sorted(final(rows)@),
        final(rows)@.len() == old(rows)@.len() + 1,
        final(rows)@.to_set() == old(rows)@.to_set().insert(row),
        old(rows)@.len() > 0 && old(rows)@[0].0 < row.0 ==> final(rows)@[0] == old(rows)@[0],
{
    let mut position: usize = 0;
    while position < rows.len() && rows[position].0 < row.0
        invariant
            position <= rows.len(),
            forall|i: int| 0 <= i < position ==> #[trigger] rows@[i].0 < row.0,
        decreases rows.len() - position,
    {
        position = position + 1;
    }
    let ghost before = rows@;
    rows.insert(position, row);
    assert(rows@ =~= before.subrange(0, position as int).push(row) + before.subrange(position as int, before.len() as int));
    assert forall|i: int, j: int| 0 <= i < j < rows@.len() implies #[trigger] rows@[i].0 < #[trigger] rows@[j].0 by {
        if j < position {
        } else if j == position {
        } else if i < position {
            assert(before[j - 1].0 >= row.0 || j - 1 < position);
        } else if i == position {
            assert(before[j - 1].0 >= row.0);
            assert(before[j - 1].0 != row.0);
        } else {
        }
    }
    assert forall|x: GlyphRow| rows@.contains(x) <==> before.contains(x) || x == row by {
        if rows@.contains(x) {
            let i = choose|i: int| 0 <= i < rows@.len() && rows@[i] == x;
            if i < position {
                assert(before[i] == x);
            } else if i > position {
                assert(before[i - 1] == x);
            }
        }
        if before.contains(x) {
            let i = choose|i: int| 0 <= i < before.len() && before[i] == x;
            if i < position {
                assert(rows@[i] == x);
            } else {
                assert(rows@[i + 1] == x);
            }
        }
        if x == row {
            assert(rows@[position as int] == row);
        }
    }
    assert forall|x: GlyphRow| rows@.to_set().contains(x) == before.to_set().insert(row).contains(x) by {
        assert(rows@.to_set().contains(x) == rows@.contains(x));
        assert(before.to_set().contains(x) == before.contains(x));
    }
    assert(rows@.to_set() =~= before.to_set().insert(row));
}

/// Builds the glyph table of a font from its glyphs (glyph identifier, character and, if
/// the font gives them, metrics), together with the largest glyph height and the total
/// width of the glyphs.
pub fn glyph_table(glyphs: &Vec<(u16, char, Option<GlyphMetrics>)>) -> (result: (Vec<GlyphRow>, u32, u32))
    requires
        glyphs_valid(glyphs@),
        total_width(glyphs@) <= u32::MAX,
        glyphs@.len() < usize::MAX,
    ensures
        is_glyph_table(result.0@, glyphs@),
        result.1 == maximum_height(glyphs@),
        result.2 == total_width(glyphs@),
{
    let mut rows: Vec<GlyphRow> = Vec::new();
    rows.push((0, 0, 1000, 1000));
    let mut maximum_character_height: u32 = 0;
    let mut total: u32 = 0;
    let mut k: usize = 0;
    proof {
        assert(glyphs@.take(0) =~= Seq::<(u16, char, Option<GlyphMetrics>)>::empty());
        assert(rows@.to_set() =~= set![(0u32, 0u32, 1000u32, 1000u32)]) by {
            assert(rows@[0] == (0u32, 0u32, 1000u32, 1000u32));
        }
    }
    while k < glyphs.len()
        invariant
            k <= glyphs.len(),
            glyphs_valid(glyphs@),
            total_width(glyphs@) <= u32::MAX,
            glyphs@.len() < usize::MAX,
            is_glyph_table(rows@, glyphs@.take(k as int)),
            rows@.len() <= k + 1,
            forall|i: int| 1 <= i < rows@.len() ==> exists|j: int| 0 <= j < k && #[trigger] rows@[i].0 == glyphs@[j].0 as u32,
            maximum_character_height == maximum_height(glyphs@.take(k as int)),
            total == total_width(glyphs@.take(k as int)),
        decreases glyphs.len() - k,
    {
        let ghost prefix = glyphs@.take(k as int + 1);
        proof {
            assert(prefix.drop_last() =~= glyphs@.take(k as int));
            assert(prefix.last() == glyphs@[k as int]);
            lemma_total_width_prefix(glyphs@, k as int + 1);
        }
        let (glyph_id, character, metrics) = glyphs[k];
        match metrics {
            Some(glyph_metrics) => {
                if glyph_metrics.height > maximum_character_height {
                    maximum_character_height = glyph_metrics.height;
                }
                total = total + glyph_metrics.width;
                let row: GlyphRow = (glyph_id as u32, character as u32, glyph_metrics.width, glyph_metrics.height);
                let ghost before = rows@;
                proof {
                    assert forall|i: int| 0 <= i < rows@.len() implies #[trigger] rows@[i].0 != row.0 by {
                        if i == 0 {
                        } else {
                            let j = choose|j: int| 0 <= j < k && #[trigger] rows@[i].0 == glyphs@[j].0 as u32;
                            assert(glyphs@[j].0 != glyphs@[k as int].0);
                        }
                    }
                }
                insert_sorted(&mut rows, row);
                proof {
                    assert(row == glyph_row(prefix.last()));
                    assert(rows@[0] == before[0]);
                    assert forall|i: int| 1 <= i < rows@.len() implies exists|j: int|
                        0 <= j < k + 1 && #[trigger] rows@[i].0 == glyphs@[j].0 as u32 by {
                        assert(rows@.to_set().contains(rows@[i]));
                        if rows@[i] == row {
                        } else {
                            assert(before.to_set().contains(rows@[i]));
                            let t = choose|t: int| 0 <= t < before.len() && before[t] == rows@[i];
                            if t == 0 {
                                assert(rows@[0].0 < rows@[i].0);
                            } else {
                                let j = choose|j: int| 0 <= j < k && #[trigger] before[t].0 == glyphs@[j].0 as u32;
                            }
                        }
                    }
                }
            },
            None => {
                proof {
                    assert forall|i: int| 1 <= i < rows@.len() implies exists|j: int|
                        0 <= j < k + 1 && #[trigger] rows@[i].0 == glyphs@[j].0 as u32 by {
                        let j = choose|j: int| 0 <= j < k && #[trigger] rows@[i].0 == glyphs@[j].0 as u32;
                    }
                }
            },
        }
        k = k + 1;
    }
    assert(glyphs@.take(glyphs@.len() as int) =~= glyphs@);
    (rows, maximum_character_height, total)
}

/// The total width of a prefix is at most that of the whole.
pub proof fn lemma_total_width_prefix(glyphs: Seq<(u16, char, Option<GlyphMetrics>)>, n: int)
    requires
        0 <= n <= glyphs.len(),
    ensures
        total_width(glyphs.take(n)) <= total_width(glyphs),
    decreases glyphs.len(),
{
    if n < glyphs.len() {
        assert(glyphs.drop_last().take(n) =~= glyphs.take(n));
        lemma_total_width_prefix(glyphs.drop_last(), n);
    } else {
        assert(glyphs.take(n) =~= glyphs);
    }
}

/// Rows sorted by glyph identifier are determined by the set of their rows.
proof fn lemma_sorted_rows_unique(a: Seq<GlyphRow>, b: Seq<GlyphRow>)
    requires
        rows_sorted(a),
        rows_sorted(b),
        a.to_set() == b.to_set(),
    ensures
        a == b,
    decreases a.len(),
{
    if a.len() == 0 {
        if b.len() > 0 {
            assert(b.to_set().contains(b[0]));
            assert(a.to_set().contains(b[0]));
        }
        assert(a =~= b);
    } else {
        assert(a.to_set().contains(a[0]));
        assert(b.to_set().contains(a[0]));
        assert(b.len() > 0);
        assert(b.to_set().contains(b[0]));
        assert(a.to_set().contains(b[0]));
        let i = choose|i: int| 0 <= i < a.len() && a[i] == b[0];
        let j = choose|j: int| 0 <= j < b.len() && b[j] == a[0];
        if i > 0 {
            assert(a[0].0 < a[i].0);
            if j > 0 {
                assert(b[0].0 < b[j].0);
            }
        }
        assert(i == 0);
        let a2 = a.drop_first();
        let b2 = b.drop_first();
        assert forall|x: GlyphRow| a2.to_set().contains(x) == b2.to_set().contains(x) by {
            if a2.to_set().contains(x) {
                let k = choose|k: int| 0 <= k < a2.len() && a2[k] == x;
                assert(a[k + 1] == x);
                assert(a.to_set().contains(x));
                let l = choose|l: int| 0 <= l < b.len() && b[l] == x;
                assert(a[0].0 < x.0);
                assert(l != 0);
                assert(b2[l - 1] == x);
            }
            if b2.to_set().contains(x) {
                let k = choose|k: int| 0 <= k < b2.len() && b2[k] == x;
                assert(b[k + 1] == x);
                assert(b.to_set().contains(x));
                let l = choose|l: int| 0 <= l < a.len() && a[l] == x;
                assert(b[0].0 < x.0);
                assert(l != 0);
                assert(a2[l - 1] == x);
            }
        }
        assert(a2.to_set() =~= b2.to_set());
        lemma_sorted_rows_unique(a2, b2);
        assert(a =~= b) by {
            assert forall|k: int| 0 <= k < a.len() implies a[k] == b[k] by {
                if k > 0 {
                    assert(a[k] == a2[k - 1]);
                    assert(b[k] == b2[k - 1]);
                }
            }
        }
    }
}

/// The glyph table of a font is unique: two tables built for the same glyphs are equal.
pub proof fn lemma_glyph_table_unique(a: Seq<GlyphRow>, b: Seq<GlyphRow>, glyphs: Seq<(u16, char, Option<GlyphMetrics>)>)
    requires
        is_glyph_table(a, glyphs),
        is_glyph_table(b, glyphs),
    ensures
        a == b,
{
    lemma_sorted_rows_unique(a, b);
}

/// The (glyph identifier, code point) pairs of the rows of a glyph table.
pub open spec fn row_entries(rows: Seq<GlyphRow>) -> Seq<(u32, u32)> {
    rows.map_values(|r: GlyphRow| (r.0, r.1))
}

/// The blocks, one after the other.
pub open spec fn flatten_blocks(blocks: Seq<Seq<(u32, u32)>>) -> Seq<(u32, u32)>
    decreases blocks.len(),
{
    if blocks.len() == 0 {
        Seq::empty()
    } else {
        flatten_blocks(blocks.drop_last()) + blocks.last()
    }
}

/// The high byte that the glyph identifiers of block `i` share: zero for the first block,
/// that of its first glyph identifier for the others.
pub open spec fn block_key(blocks: Seq<Seq<(u32, u32)>>, i: int) -> int {
    if i == 0 {
        0
    } else {
        blocks[i][0].0 as int / 256
    }
}

/// The blocks of a character map: there is a first block, possibly empty, whose glyph
/// identifiers are below 256; every other block is non-empty; within a block all glyph
/// identifiers share their high byte; a block holds at most 100 entries; and a block
/// starts only where the previous block is full or the high byte changes.
pub open spec fn well_split(blocks: Seq<Seq<(u32, u32)>>) -> bool {
    &&& blocks.len() >= 1
    &&& forall|i: int| 1 <= i < blocks.len() ==> #[trigger] blocks[i].len() > 0
    &&& forall|i: int, j: int|
        0 <= i < blocks.len() && 0 <= j < blocks[i].len() ==> #[trigger] blocks[i][j].0 as int / 256
            == block_key(blocks, i)
    &&& forall|i: int| 0 <= i < blocks.len() ==> #[trigger] blocks[i].len() <= 100
    &&& forall|i: int|
        1 <= i < blocks.len() ==> #[trigger] blocks[i - 1].len() == 100 || block_key(blocks, i) != block_key(
            blocks,
            i - 1,
        )
}

/// The blocks are the division of the entries into the blocks of a character map.
pub open spec fn is_block_split(blocks: Seq<Seq<(u32, u32)>>, entries: Seq<(u32, u32)>) -> bool {
    well_split(blocks) && flatten_blocks(blocks) == entries
}

/// The views of the blocks.
pub open spec fn blocks_view(blocks: Seq<Vec<(u32, u32)>>) -> Seq<Seq<(u32, u32)>> {
    blocks.map_values(|b: Vec<(u32, u32)>| b@)
}

proof fn lemma_split_new_block(blocks: Seq<Seq<(u32, u32)>>, e: (u32, u32))
    requires
        well_split(blocks),
        blocks.last().len() == 100 || e.0 as int / 256 != block_key(blocks, blocks.len() - 1),
    ensures
        well_split(blocks.push(seq![e])),
        flatten_blocks(blocks.push(seq![e])) == flatten_blocks(blocks) + seq![e],
        block_key(blocks.push(seq![e]), blocks.len() as int) == e.0 as int / 256,
{
    let b2 = blocks.push(seq![e]);
    assert(b2.drop_last() =~= blocks);
    assert forall|i: int| 0 <= i < blocks.len() implies b2[i] == blocks[i] && block_key(b2, i) == block_key(blocks, i) by {}
    assert forall|i: int, j: int|
        0 <= i < b2.len() && 0 <= j < b2[i].len() implies #[trigger] b2[i][j].0 as int / 256 == block_key(b2, i) by {
        if i < blocks.len() {
            assert(b2[i] == blocks[i]);
        }
    }
    assert forall|i: int| 1 <= i < b2.len() implies #[trigger] b2[i - 1].len() == 100 || block_key(b2, i) != block_key(b2, i - 1) by {
        if i < blocks.len() {
            assert(b2[i] == blocks[i]);
            assert(b2[i - 1] == blocks[i - 1]);
        }
    }
}

proof fn lemma_split_extend_block(blocks: Seq<Seq<(u32, u32)>>, e: (u32, u32))
    requires
        well_split(blocks),
        blocks.last().len() < 100,
        e.0 as int / 256 == block_key(blocks, blocks.len() - 1),
    ensures
        well_split(blocks.drop_last().push(blocks.last().push(e))),
        flatten_blocks(blocks.drop_last().push(blocks.last().push(e))) == flatten_blocks(blocks) + seq![e],
        block_key(blocks.drop_last().push(blocks.last().push(e)), blocks.len() - 1) == block_key(blocks, blocks.len() - 1),
{
    let n = blocks.len() - 1;
    let b2 = blocks.drop_last().push(blocks.last().push(e));
    assert(b2.drop_last() =~= blocks.drop_last());
    assert(b2.len() == blocks.len());
    assert forall|i: int| 0 <= i < n implies b2[i] == blocks[i] by {}
    assert(b2[n] == blocks[n].push(e));
    assert(block_key(b2, n) == block_key(blocks, n)) by {
        if n > 0 {
            assert(blocks[n].len() > 0);
            assert(b2[n][0] == blocks[n][0]);
        }
    }
    assert forall|i: int| 0 <= i < b2.len() implies block_key(b2, i) == block_key(blocks, i) by {
        if i < n {
            assert(b2[i] == blocks[i]);
        }
    }
    assert forall|i: int, j: int|
        0 <= i < b2.len() && 0 <= j < b2[i].len() implies #[trigger] b2[i][j].0 as int / 256 == block_key(b2, i) by {
        if i < n {
            assert(b2[i] == blocks[i]);
        } else if j < blocks[n].len() {
            assert(b2[i][j] == blocks[n][j]);
        }
    }
    assert forall|i: int| 1 <= i < b2.len() implies #[trigger] b2[i].len() > 0 by {
        if i < n {
            assert(b2[i] == blocks[i]);
        }
    }
    assert forall|i: int| 0 <= i < b2.len() implies #[trigger] b2[i].len() <= 100 by {
        if i < n {
            assert(b2[i] == blocks[i]);
        }
    }
    assert forall|i: int| 1 <= i < b2.len() implies #[trigger] b2[i - 1].len() == 100 || block_key(b2, i) != block_key(b2, i - 1) by {
        assert(b2[i - 1] == blocks[i - 1]);
    }
    assert(flatten_blocks(b2) == flatten_blocks(blocks.drop_last()) + blocks.last().push(e));
    assert(flatten_blocks(blocks) == flatten_blocks(blocks.drop_last()) + blocks.last());
    assert(flatten_blocks(blocks.drop_last()) + blocks.last().push(e) =~= flatten_blocks(blocks) + seq![e]);
}

/// The blocks without their last entry: the last block goes if that entry was all it
/// held and it is not the first block; otherwise it loses its last entry.
spec fn shrink_blocks(blocks: Seq<Seq<(u32, u32)>>) -> Seq<Seq<(u32, u32)>> {
    if blocks.len() > 1 && blocks.last().len() == 1 {
        blocks.drop_last()
    } else {
        blocks.drop_last().push(blocks.last().drop_last())
    }
}

/// A division into blocks of non-empty entries is that of the entries but the last, with
/// the last entry starting a new block (where the last block is full or the high byte
/// changes) or extending the last block (where neither holds).
proof fn lemma_shrink_blocks(blocks: Seq<Seq<(u32, u32)>>, entries: Seq<(u32, u32)>)
    requires
        is_block_split(blocks, entries),
        entries.len() > 0,
    ensures
        is_block_split(shrink_blocks(blocks), entries.drop_last()),
        ({
            let s = shrink_blocks(blocks);
            let e = entries.last();
            if blocks.len() > 1 && blocks.last().len() == 1 {
                &&& blocks == s.push(seq![e])
                &&& (s.last().len() == 100 || e.0 as int / 256 != block_key(s, s.len() - 1))
            } else {
                &&& blocks == s.drop_last().push(s.last().push(e))
                &&& s.last().len() < 100
                &&& e.0 as int / 256 == block_key(s, s.len() - 1)
            }
        }),
{
    let n = blocks.len() - 1;
    let e = entries.last();
    let s = shrink_blocks(blocks);
    assert(flatten_blocks(blocks) == flatten_blocks(blocks.drop_last()) + blocks.last());
    if n == 0 {
        assert(blocks.drop_last() =~= Seq::<Seq<(u32, u32)>>::empty());
        assert(flatten_blocks(blocks.drop_last()) =~= Seq::<(u32, u32)>::empty());
        assert(blocks.last() =~= entries);
    } else {
        assert(blocks[n].len() > 0);
    }
    assert(blocks.last().len() > 0);
    assert(blocks.last().last() == e) by {
        assert(entries[entries.len() - 1] == blocks.last()[blocks.last().len() - 1]);
    }
    assert forall|i: int| 0 <= i < n implies block_key(blocks.drop_last(), i) == block_key(blocks, i) by {}
    if blocks.len() > 1 && blocks.last().len() == 1 {
        assert(s == blocks.drop_last());
        assert(flatten_blocks(blocks.drop_last()) + blocks.last() =~= flatten_blocks(blocks.drop_last()) + seq![e]);
        assert(entries.drop_last() =~= flatten_blocks(s));
        assert(blocks.last() =~= seq![e]);
        assert(blocks =~= s.push(seq![e]));
        assert(blocks[n - 1] == s[n - 1]);
        assert(block_key(blocks, n) == e.0 as int / 256) by {
            assert(blocks[n][0] == e);
        }
        assert forall|i: int, j: int| 0 <= i < s.len() && 0 <= j < s[i].len() implies #[trigger] s[i][j].0 as int / 256 == block_key(s, i) by {
            assert(s[i] == blocks[i]);
        }
        assert forall|i: int| 1 <= i < s.len() implies #[trigger] s[i - 1].len() == 100 || block_key(s, i) != block_key(s, i - 1) by {
            assert(s[i] == blocks[i]);
            assert(s[i - 1] == blocks[i - 1]);
        }
        assert(well_split(s));
    } else {
        let last = blocks.last().drop_last();
        assert(s == blocks.drop_last().push(last));
        assert(s.drop_last() =~= blocks.drop_last());
        assert(blocks.last() =~= last.push(e));
        assert(flatten_blocks(s) == flatten_blocks(blocks.drop_last()) + last);
        assert(entries.drop_last() =~= flatten_blocks(s));
        assert(blocks =~= s.drop_last().push(s.last().push(e)));
        assert forall|i: int| 0 <= i < n implies s[i] == blocks[i] by {}
        assert(block_key(s, n) == block_key(blocks, n)) by {
            if n > 0 {
                assert(last.len() > 0);
                assert(s[n][0] == blocks[n][0]);
            }
        }
        assert forall|i: int| 0 <= i < s.len() implies block_key(s, i) == block_key(blocks, i) by {
            if i < n {
                assert(s[i] == blocks[i]);
            }
        }
        assert forall|i: int, j: int| 0 <= i < s.len() && 0 <= j < s[i].len() implies #[trigger] s[i][j].0 as int / 256 == block_key(s, i) by {
            if i < n {
                assert(s[i] == blocks[i]);
            } else {
                assert(s[i][j] == blocks[n][j]);
            }
        }
        assert forall|i: int| 1 <= i < s.len() implies #[trigger] s[i].len() > 0 by {
            if i < n {
                assert(s[i] == blocks[i]);
            }
        }
        assert forall|i: int| 0 <= i < s.len() implies #[trigger] s[i].len() <= 100 by {
            if i < n {
                assert(s[i] == blocks[i]);
            }
        }
        assert forall|i: int| 1 <= i < s.len() implies #[trigger] s[i - 1].len() == 100 || block_key(s, i) != block_key(s, i - 1) by {
            assert(s[i - 1] == blocks[i - 1]);
        }
        assert(well_split(s));
        assert(e.0 as int / 256 == block_key(blocks, n)) by {
            assert(blocks[n][blocks[n].len() - 1] == e);
        }
    }
}

/// The division of entries into the blocks of a character map is unique.
pub proof fn lemma_block_split_unique(a: Seq<Seq<(u32, u32)>>, b: Seq<Seq<(u32, u32)>>, entries: Seq<(u32, u32)>)
    requires
        is_block_split(a, entries),
        is_block_split(b, entries),
    ensures
        a == b,
    decreases entries.len(),
{
    if entries.len() == 0 {
        assert forall|c: Seq<Seq<(u32, u32)>>| is_block_split(c, entries) implies c =~= seq![Seq::<(u32, u32)>::empty()] by {
            assert(flatten_blocks(c) == flatten_blocks(c.drop_last()) + c.last());
            if c.len() > 1 {
                assert(c[c.len() - 1].len() > 0);
            }
            assert(c.drop_last() =~= Seq::<Seq<(u32, u32)>>::empty());
            assert(flatten_blocks(c.drop_last()) =~= Seq::<(u32, u32)>::empty());
            assert(c[0] =~= Seq::<(u32, u32)>::empty());
        }
    } else {
        lemma_shrink_blocks(a, entries);
        lemma_shrink_blocks(b, entries);
        lemma_block_split_unique(shrink_blocks(a), shrink_blocks(b), entries.drop_last());
    }
}

/// Divides the (glyph identifier, code point) pairs of a glyph table into the blocks of a
/// character map: a block holds at most 100 pairs whose glyph identifiers share their
/// high byte.
pub fn gid_blocks(rows: &Vec<GlyphRow>) -> (blocks: Vec<Vec<(u32, u32)>>)
    requires
        forall|i: int| 0 <= i < rows@.len() ==> #[trigger] rows@[i].0 < 65536,
    ensures
        is_block_split(blocks_view(blocks@), row_entries(rows@)),
{
    let mut current_first_bit: u16 = 0;
    let mut all_blocks: Vec<Vec<(u32, u32)>> = Vec::new();
    let mut current_block: Vec<(u32, u32)> = Vec::new();
    let mut k: usize = 0;
    proof {
        let s = blocks_view(all_blocks@).push(current_block@);
        assert(s =~= seq![Seq::<(u32, u32)>::empty()]);
        assert(s.drop_last() =~= Seq::<Seq<(u32, u32)>>::empty());
        assert(flatten_blocks(s.drop_last()) =~= Seq::<(u32, u32)>::empty());
        assert(flatten_blocks(s) =~= row_entries(rows@).take(0));
    }
    while k < rows.len()
        invariant
            k <= rows.len(),
            forall|i: int| 0 <= i < rows@.len() ==> #[trigger] rows@[i].0 < 65536,
            current_block@.len() <= 100,
            well_split(blocks_view(all_blocks@).push(current_block@)),
            flatten_blocks(blocks_view(all_blocks@).push(current_block@)) == row_entries(rows@).take(k as int),
            current_first_bit as int == block_key(blocks_view(all_blocks@).push(current_block@), all_blocks@.len() as int),
        decreases rows.len() - k,
    {
        let glyph_id = rows[k].0;
        let character = rows[k].1;
        let e: (u32, u32) = (glyph_id, character);
        let ghost s = blocks_view(all_blocks@).push(current_block@);
        assert(s.last() == current_block@);
        assert(row_entries(rows@).take(k as int + 1) =~= row_entries(rows@).take(k as int) + seq![e]);
        assert(glyph_id >> 8 == glyph_id / 256) by (bit_vector);
        let high_byte = (glyph_id >> 8) as u16;
        if high_byte != current_first_bit || current_block.len() >= 100 {
            proof {
                lemma_split_new_block(s, e);
            }
            let mut new_block: Vec<(u32, u32)> = Vec::new();
            new_block.push(e);
            let mut finished = new_block;
            std::mem::swap(&mut finished, &mut current_block);
            all_blocks.push(finished);
            current_first_bit = high_byte;
            assert(blocks_view(all_blocks@).push(current_block@) =~= s.push(seq![e]));
        } else {
            proof {
                lemma_split_extend_block(s, e);
            }
            current_block.push(e);
            assert(blocks_view(all_blocks@).push(current_block@) =~= s.drop_last().push(s.last().push(e)));
        }
        k = k + 1;
    }
    let ghost s = blocks_view(all_blocks@).push(current_block@);
    all_blocks.push(current_block);
    assert(blocks_view(all_blocks@) =~= s);
    assert(row_entries(rows@).take(rows@.len() as int) =~= row_entries(rows@));
    all_blocks
}

/// The beginning of a character map, up to the name of the font face.
pub const CMAP_BEGINNING: &'static str = "/CIDInit /ProcSet findresource begin\n12 dict begin\nbegincmap\n/CIDSystemInfo\n<< /Registry (Adobe)\n/Ordering (UCS)\n/Supplement 0\n>> def\n/CMapName /";

/// The part of the beginning of a character map that follows the name of the font face.
pub const CMAP_BEGINNING_AFTER_NAME: &'static str = "-UCS def\n/CMapType 2 def\n1 begincodespacerange\n<0000> <ffff>\nendcodespacerange\n";

/// The end of a character map.
pub const CMAP_END: &'static str = "endcmap\nCMapName currentdict /CMap defineresource pop\nend\nend\n";

/// A number in lowercase hexadecimal, with at least four digits.
pub open spec fn hex4(n: u32) -> Seq<char> {
    zero_padded(hexadecimal(n as nat), 4)
}

/// The line of a character map that maps a glyph identifier to a code point.
pub open spec fn entry_text(e: (u32, u32)) -> Seq<char> {
    "<"@ + hex4(e.0) + "> <"@ + hex4(e.1) + ">\n"@
}

/// The lines of a block's entries.
pub open spec fn entries_text(entries: Seq<(u32, u32)>) -> Seq<char>
    decreases entries.len(),
{
    if entries.len() == 0 {
        Seq::empty()
    } else {
        entries_text(entries.drop_last()) + entry_text(entries.last())
    }
}

/// The text of a block: its size, its entries, and the delimiting keywords.
pub open spec fn block_text(block: Seq<(u32, u32)>) -> Seq<char> {
    decimal(block.len()) + " beginbfchar\r\n"@ + entries_text(block) + "endbfchar\r\n"@
}

/// The texts of the blocks, one after the other.
pub open spec fn blocks_text(blocks: Seq<Seq<(u32, u32)>>) -> Seq<char>
    decreases blocks.len(),
{
    if blocks.len() == 0 {
        Seq::empty()
    } else {
        blocks_text(blocks.drop_last()) + block_text(blocks.last())
    }
}

/// The character map of a font face: the beginning (with the name of the face), the texts
/// of the blocks, and the end.
pub open spec fn cmap_text(face_name: Seq<char>, blocks: Seq<Seq<(u32, u32)>>) -> Seq<char> {
    CMAP_BEGINNING@ + face_name + CMAP_BEGINNING_AFTER_NAME@ + blocks_text(blocks) + CMAP_END@
}

/// The text holds the lines at the given positions, one after the other: line `k` is the
/// part of the text from `positions[k]` on, and it ends before line `k + 1` begins.
pub open spec fn lines_at(text: Seq<char>, lines: Seq<Seq<char>>, positions: Seq<int>) -> bool {
    &&& positions.len() == lines.len()
    &&& forall|k: int|
        0 <= k < lines.len() ==> 0 <= #[trigger] positions[k] && positions[k] + lines[k].len() <= text.len() && text.subrange(
            positions[k],
            positions[k] + lines[k].len(),
        ) == lines[k]
    &&& forall|k: int, l: int| 0 <= k < l < lines.len() ==> #[trigger] positions[k] + lines[k].len() <= #[trigger] positions[l]
}

/// The text holds the lines, in their order, without overlapping.
pub open spec fn holds_lines_in_order(text: Seq<char>, lines: Seq<Seq<char>>) -> bool {
    exists|positions: Seq<int>| lines_at(text, lines, positions)
}

/// The lines of two texts are the lines of the texts put together.
proof fn lemma_lines_concat(
    t1: Seq<char>,
    l1: Seq<Seq<char>>,
    p1: Seq<int>,
    t2: Seq<char>,
    l2: Seq<Seq<char>>,
    p2: Seq<int>,
) -> (p: Seq<int>)
    requires
        lines_at(t1, l1, p1),
        lines_at(t2, l2, p2),
    ensures
        lines_at(t1 + t2, l1 + l2, p),
{
    let shift = t1.len() as int;
    let p = p1 + Seq::new(p2.len(), |k: int| p2[k] + shift);
    let t = t1 + t2;
    let l = l1 + l2;
    assert forall|k: int| 0 <= k < l.len() implies 0 <= #[trigger] p[k] && p[k] + l[k].len() <= t.len() && t.subrange(
        p[k],
        p[k] + l[k].len(),
    ) == l[k] by {
        if k < l1.len() {
            assert(p[k] == p1[k] && l[k] == l1[k]);
            assert(t.subrange(p[k], p[k] + l[k].len()) =~= t1.subrange(p1[k], p1[k] + l1[k].len()));
        } else {
            let k2 = k - l1.len();
            assert(p[k] == p2[k2] + shift && l[k] == l2[k2]);
            assert(t.subrange(p[k], p[k] + l[k].len()) =~= t2.subrange(p2[k2], p2[k2] + l2[k2].len()));
        }
    }
    assert forall|k: int, j: int| 0 <= k < j < l.len() implies #[trigger] p[k] + l[k].len() <= #[trigger] p[j] by {
        if j < l1.len() {
            assert(p[k] == p1[k] && p[j] == p1[j] && l[k] == l1[k]);
        } else if k < l1.len() {
            assert(p[k] == p1[k] && l[k] == l1[k]);
            assert(p[j] == p2[j - l1.len()] + shift);
            assert(0 <= p2[j - l1.len()]);
            assert(p1[k] + l1[k].len() <= t1.len());
        } else {
            assert(p[k] == p2[k - l1.len()] + shift && l[k] == l2[k - l1.len()]);
            assert(p[j] == p2[j - l1.len()] + shift);
            assert(p2[k - l1.len()] + l2[k - l1.len()].len() <= p2[j - l1.len()]);
        }
    }
    p
}

/// A text holds itself as its one line, and any text holds no lines.
proof fn lemma_lines_single(text: Seq<char>)
    ensures
        lines_at(text, seq![text], seq![0int]),
        lines_at(text, Seq::<Seq<char>>::empty(), Seq::<int>::empty()),
{
    assert(text.subrange(0, text.len() as int) =~= text);
}

/// The lines of the entries of a block.
pub open spec fn entry_lines(entries: Seq<(u32, u32)>) -> Seq<Seq<char>> {
    entries.map_values(|e: (u32, u32)| entry_text(e))
}

/// The text of entries holds their lines in order.
proof fn lemma_entries_lines(entries: Seq<(u32, u32)>) -> (p: Seq<int>)
    ensures
        lines_at(entries_text(entries), entry_lines(entries), p),
    decreases entries.len(),
{
    if entries.len() == 0 {
        lemma_lines_single(entries_text(entries));
        assert(entry_lines(entries) =~= Seq::<Seq<char>>::empty());
        Seq::empty()
    } else {
        let p1 = lemma_entries_lines(entries.drop_last());
        let last = entry_text(entries.last());
        lemma_lines_single(last);
        assert(entry_lines(entries) =~= entry_lines(entries.drop_last()) + seq![last]);
        lemma_lines_concat(entries_text(entries.drop_last()), entry_lines(entries.drop_last()), p1, last, seq![last], seq![0int])
    }
}

/// The text of blocks holds the lines of all their entries in order.
proof fn lemma_blocks_lines(blocks: Seq<Seq<(u32, u32)>>) -> (p: Seq<int>)
    ensures
        lines_at(blocks_text(blocks), entry_lines(flatten_blocks(blocks)), p),
    decreases blocks.len(),
{
    if blocks.len() == 0 {
        lemma_lines_single(blocks_text(blocks));
        assert(entry_lines(flatten_blocks(blocks)) =~= Seq::<Seq<char>>::empty());
        Seq::empty()
    } else {
        let p1 = lemma_blocks_lines(blocks.drop_last());
        let last = blocks.last();
        let header = decimal(last.len()) + " beginbfchar\r\n"@;
        let footer = "endbfchar\r\n"@;
        let p2 = lemma_entries_lines(last);
        lemma_lines_single(header);
        lemma_lines_single(footer);
        let q1 = lemma_lines_concat(header, Seq::empty(), Seq::empty(), entries_text(last), entry_lines(last), p2);
        assert(Seq::<Seq<char>>::empty() + entry_lines(last) =~= entry_lines(last));
        let q2 = lemma_lines_concat(header + entries_text(last), entry_lines(last), q1, footer, Seq::empty(), Seq::empty());
        assert(entry_lines(last) + Seq::<Seq<char>>::empty() =~= entry_lines(last));
        assert(block_text(last) == header + entries_text(last) + footer);
        assert(entry_lines(flatten_blocks(blocks)) =~= entry_lines(flatten_blocks(blocks.drop_last())) + entry_lines(last));
        lemma_lines_concat(
            blocks_text(blocks.drop_last()),
            entry_lines(flatten_blocks(blocks.drop_last())),
            p1,
            block_text(last),
            entry_lines(last),
            q2,
        )
    }
}

/// The character map of a font face lists every entry of every block, in order, as a
/// line `<gggg> <uuuu>`: the glyph identifier and the code point in hexadecimal, with at
/// least four digits each.
pub proof fn lemma_cmap_lists_entries(face_name: Seq<char>, blocks: Seq<Seq<(u32, u32)>>)
    ensures
        holds_lines_in_order(
            cmap_text(face_name, blocks),
            flatten_blocks(blocks).map_values(|e: (u32, u32)| "<"@ + hex4(e.0) + "> <"@ + hex4(e.1) + ">\n"@),
        ),
{
    let start = CMAP_BEGINNING@ + face_name + CMAP_BEGINNING_AFTER_NAME@;
    let p = lemma_blocks_lines(blocks);
    lemma_lines_single(start);
    lemma_lines_single(CMAP_END@);
    let lines = entry_lines(flatten_blocks(blocks));
    let q1 = lemma_lines_concat(start, Seq::empty(), Seq::empty(), blocks_text(blocks), lines, p);
    assert(Seq::<Seq<char>>::empty() + lines =~= lines);
    let q2 = lemma_lines_concat(start + blocks_text(blocks), lines, q1, CMAP_END@, Seq::empty(), Seq::empty());
    assert(lines + Seq::<Seq<char>>::empty() =~= lines);
    assert(cmap_text(face_name, blocks) == start + blocks_text(blocks) + CMAP_END@);
    assert(lines =~= flatten_blocks(blocks).map_values(|e: (u32, u32)| "<"@ + hex4(e.0) + "> <"@ + hex4(e.1) + ">\n"@));
    assert(lines_at(cmap_text(face_name, blocks), lines, q2));
}

/// Appends the line of an entry.
fn push_entry(text: &mut Vec<char>, e: (u32, u32))
    ensures
        final(text)@ == old(text)@ + entry_text(e),
{
    push_str(text, "<");
    let gid = pad_with_zeros(hexadecimal_chars(e.0 as u64), 4);
    push_chars(text, &gid);
    push_str(text, "> <");
    let unicode = pad_with_zeros(hexadecimal_chars(e.1 as u64), 4);
    push_chars(text, &unicode);
    push_str(text, ">\n");
    assert(final(text)@ =~= old(text)@ + entry_text(e));
}

/// Appends the text of a block.
fn push_block(text: &mut Vec<char>, block: &Vec<(u32, u32)>)
    ensures
        final(text)@ == old(text)@ + block_text(block@),
{
    let count = decimal_chars(block.len() as u64);
    push_chars(text, &count);
    push_str(text, " beginbfchar\r\n");
    let ghost start = text@;
    let mut i: usize = 0;
    while i < block.len()
        invariant
            i <= block.len(),
            text@ == start + entries_text(block@.take(i as int)),
        decreases block.len() - i,
    {
        let ghost before = text@;
        push_entry(text, block[i]);
        assert(block@.take(i as int + 1).drop_last() =~= block@.take(i as int));
        i = i + 1;
        assert(text@ =~= start + entries_text(block@.take(i as int)));
    }
    assert(block@.take(block@.len() as int) =~= block@);
    push_str(text, "endbfchar\r\n");
    assert(final(text)@ =~= old(text)@ + block_text(block@));
}

/// Generates the character map (from character identifiers to Unicode code points) of a
/// font face from the blocks of its glyph table.
pub fn generate_cid_to_unicode_map(face_name: String, all_cmap_blocks: Vec<Vec<(u32, u32)>>) -> (map: String)
    ensures
        map@ == cmap_text(face_name@, blocks_view(all_cmap_blocks@)),
        holds_lines_in_order(
            map@,
            flatten_blocks(blocks_view(all_cmap_blocks@)).map_values(
                |e: (u32, u32)| "<"@ + hex4(e.0) + "> <"@ + hex4(e.1) + ">\n"@,
            ),
        ),
{
    proof {
        lemma_cmap_lists_entries(face_name@, blocks_view(all_cmap_blocks@));
    }
    let mut text = str_chars(CMAP_BEGINNING);
    let name = str_chars(face_name.as_str());
    push_chars(&mut text, &name);
    push_str(&mut text, CMAP_BEGINNING_AFTER_NAME);
    let ghost start = text@;
    let mut i: usize = 0;
    while i < all_cmap_blocks.len()
        invariant
            i <= all_cmap_blocks.len(),
            text@ == start + blocks_text(blocks_view(all_cmap_blocks@).take(i as int)),
        decreases all_cmap_blocks.len() - i,
    {
        let block = &all_cmap_blocks[i];
        assert(blocks_view(all_cmap_blocks@).take(i as int + 1).drop_last() =~= blocks_view(all_cmap_blocks@).take(i as int));
        if !(block.len() == 0) || block.len() < 100 {
            push_block(&mut text, block);
        }
        i = i + 1;
        assert(text@ =~= start + blocks_text(blocks_view(all_cmap_blocks@).take(i as int)));
    }
    assert(blocks_view(all_cmap_blocks@).take(all_cmap_blocks@.len() as int) =~= blocks_view(all_cmap_blocks@));
    push_str(&mut text, CMAP_END);
    assert(text@ =~= cmap_text(face_name@, blocks_view(all_cmap_blocks@)));
    chars_to_string(&text)
}

/// The glyph identifiers that have a width, with their widths, in increasing order.
pub open spec fn present_widths(widths: Seq<Option<u32>>) -> Seq<(int, u32)>
    decreases widths.len(),
{
    if widths.len() == 0 {
        Seq::empty()
    } else {
        let rest = present_widths(widths.drop_last());
        match widths.last() {
            Some(w) => rest.push(((widths.len() - 1) as int, w)),
            None => rest,
        }
    }
}

/// The glyph identifiers and widths that a run stands for: its first glyph identifier,
/// then the following ones.
pub open spec fn run_entries(first: u16, widths: Seq<u32>) -> Seq<(int, u32)> {
    Seq::new(widths.len(), |j: int| (first as int + j, widths[j]))
}

/// The glyph identifiers and widths that the runs stand for, one run after the other.
pub open spec fn flatten_runs(runs: Seq<(u16, Seq<u32>)>) -> Seq<(int, u32)>
    decreases runs.len(),
{
    if runs.len() == 0 {
        Seq::empty()
    } else {
        flatten_runs(runs.drop_last()) + run_entries(runs.last().0, runs.last().1)
    }
}

/// Runs of widths: the first run starts at glyph zero and may be empty; every other run is
/// non-empty; and a run never starts right where the previous one ends.
pub open spec fn well_formed_runs(runs: Seq<(u16, Seq<u32>)>) -> bool {
    &&& runs.len() >= 1
    &&& runs[0].0 == 0
    &&& forall|i: int| 1 <= i < runs.len() ==> #[trigger] runs[i].1.len() > 0
    &&& forall|i: int|
        1 <= i < runs.len() ==> #[trigger] runs[i].0 as int != runs[i - 1].0 as int + runs[i - 1].1.len()
}

/// The runs group the glyphs that have a width into maximal runs of consecutive glyph
/// identifiers.
pub open spec fn is_width_runs(runs: Seq<(u16, Seq<u32>)>, widths: Seq<Option<u32>>) -> bool {
    well_formed_runs(runs) && flatten_runs(runs) == present_widths(widths)
}

/// The views of runs.
pub open spec fn runs_view(runs: Seq<(u16, Vec<u32>)>) -> Seq<(u16, Seq<u32>)> {
    runs.map_values(|r: (u16, Vec<u32>)| (r.0, r.1@))
}

proof fn lemma_runs_extend(runs: Seq<(u16, Seq<u32>)>, w: u32)
    requires
        well_formed_runs(runs),
    ensures
        well_formed_runs(runs.drop_last().push((runs.last().0, runs.last().1.push(w)))),
        flatten_runs(runs.drop_last().push((runs.last().0, runs.last().1.push(w)))) == flatten_runs(runs)
            + seq![(runs.last().0 as int + runs.last().1.len(), w)],
{
    let n = runs.len() - 1;
    let r2 = runs.drop_last().push((runs.last().0, runs.last().1.push(w)));
    assert(r2.drop_last() =~= runs.drop_last());
    assert forall|i: int| 0 <= i < n implies r2[i] == runs[i] by {}
    assert forall|i: int| 1 <= i < r2.len() implies #[trigger] r2[i].1.len() > 0 by {
        if i < n {
            assert(r2[i] == runs[i]);
        }
    }
    assert forall|i: int| 1 <= i < r2.len() implies #[trigger] r2[i].0 as int != r2[i - 1].0 as int + r2[i - 1].1.len() by {
        assert(r2[i - 1] == runs[i - 1]);
        if i < n {
            assert(r2[i] == runs[i]);
        }
    }
    assert(run_entries(runs.last().0, runs.last().1.push(w)) =~= run_entries(runs.last().0, runs.last().1)
        + seq![(runs.last().0 as int + runs.last().1.len(), w)]);
}

proof fn lemma_runs_new(runs: Seq<(u16, Seq<u32>)>, g: u16, w: u32)
    requires
        well_formed_runs(runs),
        g as int != runs.last().0 as int + runs.last().1.len(),
    ensures
        well_formed_runs(runs.push((g, seq![w]))),
        flatten_runs(runs.push((g, seq![w]))) == flatten_runs(runs) + seq![(g as int, w)],
{
    let r2 = runs.push((g, seq![w]));
    assert(r2.drop_last() =~= runs);
    assert forall|i: int| 0 <= i < runs.len() implies r2[i] == runs[i] by {}
    assert forall|i: int| 1 <= i < r2.len() implies #[trigger] r2[i].0 as int != r2[i - 1].0 as int + r2[i - 1].1.len() by {
        assert(r2[i - 1] == runs[i - 1]);
    }
    assert(run_entries(g, seq![w]) =~= seq![(g as int, w)]);
}

/// The runs without their last entry: the last run goes if that entry was all it held and
/// it is not the first run; otherwise it loses its last width.
spec fn shrink_runs(runs: Seq<(u16, Seq<u32>)>) -> Seq<(u16, Seq<u32>)> {
    if runs.len() > 1 && runs.last().1.len() == 1 {
        runs.drop_last()
    } else {
        runs.drop_last().push((runs.last().0, runs.last().1.drop_last()))
    }
}

/// Runs that stand for non-empty entries are those of the entries but the last, with the
/// last entry starting a new run (where it does not follow the last run) or extending the
/// last run (where it does).
#[verifier::rlimit(40)]
proof fn lemma_shrink_runs(runs: Seq<(u16, Seq<u32>)>, entries: Seq<(int, u32)>)
    requires
        well_formed_runs(runs),
        flatten_runs(runs) == entries,
        entries.len() > 0,
    ensures
        well_formed_runs(shrink_runs(runs)),
        flatten_runs(shrink_runs(runs)) == entries.drop_last(),
        ({
            let s = shrink_runs(runs);
            let e = entries.last();
            if runs.len() > 1 && runs.last().1.len() == 1 {
                &&& runs == s.push((runs.last().0, seq![e.1]))
                &&& runs.last().0 as int == e.0
                &&& e.0 != s.last().0 as int + s.last().1.len()
            } else {
                &&& runs == s.drop_last().push((s.last().0, s.last().1.push(e.1)))
                &&& e.0 == s.last().0 as int + s.last().1.len()
            }
        }),
{
    let n = runs.len() - 1;
    let e = entries.last();
    let s = shrink_runs(runs);
    let last = runs.last();
    assert(flatten_runs(runs) == flatten_runs(runs.drop_last()) + run_entries(last.0, last.1));
    if n == 0 {
        assert(runs.drop_last() =~= Seq::<(u16, Seq<u32>)>::empty());
        assert(flatten_runs(runs.drop_last()) =~= Seq::<(int, u32)>::empty());
        assert(run_entries(last.0, last.1) =~= entries);
    } else {
        assert(runs[n].1.len() > 0);
    }
    assert(last.1.len() > 0);
    assert(e == (last.0 as int + last.1.len() - 1, last.1.last())) by {
        assert(entries[entries.len() - 1] == run_entries(last.0, last.1)[last.1.len() - 1]);
    }
    if runs.len() > 1 && last.1.len() == 1 {
        assert(s == runs.drop_last());
        assert(run_entries(last.0, last.1) =~= seq![e]);
        assert(entries.drop_last() =~= flatten_runs(s));
        assert(last.1 =~= seq![e.1]);
        assert(runs =~= s.push((last.0, seq![e.1])));
        assert(runs[n - 1] == s.last());
        assert forall|i: int| 1 <= i < s.len() implies #[trigger] s[i].1.len() > 0 by {
            assert(s[i] == runs[i]);
        }
        assert forall|i: int| 1 <= i < s.len() implies #[trigger] s[i].0 as int != s[i - 1].0 as int + s[i - 1].1.len() by {
            assert(s[i] == runs[i]);
            assert(s[i - 1] == runs[i - 1]);
        }
        assert(s[0] == runs[0]);
    } else {
        let shorter = last.1.drop_last();
        assert(s == runs.drop_last().push((last.0, shorter)));
        assert(s.drop_last() =~= runs.drop_last());
        assert(last.1 =~= shorter.push(e.1));
        assert(run_entries(last.0, last.1) =~= run_entries(last.0, shorter) + seq![e]);
        assert(flatten_runs(s) == flatten_runs(runs.drop_last()) + run_entries(last.0, shorter));
        assert(entries.drop_last() =~= flatten_runs(s));
        assert(runs =~= s.drop_last().push((s.last().0, s.last().1.push(e.1))));
        assert forall|i: int| 0 <= i < n implies s[i] == runs[i] by {}
        assert forall|i: int| 1 <= i < s.len() implies #[trigger] s[i].1.len() > 0 by {
            if i < n {
                assert(s[i] == runs[i]);
            }
        }
        assert forall|i: int| 1 <= i < s.len() implies #[trigger] s[i].0 as int != s[i - 1].0 as int + s[i - 1].1.len() by {
            assert(s[i - 1] == runs[i - 1]);
            if i < n {
                assert(s[i] == runs[i]);
            }
        }
        if n == 0 {
            assert(s[0].0 == runs[0].0);
        } else {
            assert(s[0] == runs[0]);
        }
    }
}

/// Well-formed runs are determined by the entries they stand for.
proof fn lemma_runs_unique(a: Seq<(u16, Seq<u32>)>, b: Seq<(u16, Seq<u32>)>, entries: Seq<(int, u32)>)
    requires
        well_formed_runs(a),
        well_formed_runs(b),
        flatten_runs(a) == entries,
        flatten_runs(b) == entries,
    ensures
        a == b,
    decreases entries.len(),
{
    if entries.len() == 0 {
        assert forall|c: Seq<(u16, Seq<u32>)>| well_formed_runs(c) && flatten_runs(c) == entries implies c =~= seq![(0u16, Seq::<u32>::empty())] by {
            let l = c.last();
            assert(flatten_runs(c) == flatten_runs(c.drop_last()) + run_entries(l.0, l.1));
            if c.len() > 1 {
                assert(c[c.len() - 1].1.len() > 0);
            }
            assert(c.drop_last() =~= Seq::<(u16, Seq<u32>)>::empty());
            assert(flatten_runs(c.drop_last()) =~= Seq::<(int, u32)>::empty());
            assert(run_entries(l.0, l.1).len() == 0);
            assert(c[0].1 =~= Seq::<u32>::empty());
        }
    } else {
        lemma_shrink_runs(a, entries);
        lemma_shrink_runs(b, entries);
        lemma_runs_unique(shrink_runs(a), shrink_runs(b), entries.drop_last());
    }
}

/// The runs of the widths of a font are unique.
pub proof fn lemma_width_runs_unique(a: Seq<(u16, Seq<u32>)>, b: Seq<(u16, Seq<u32>)>, widths: Seq<Option<u32>>)
    requires
        is_width_runs(a, widths),
        is_width_runs(b, widths),
    ensures
        a == b,
{
    lemma_runs_unique(a, b, present_widths(widths));
}

/// Groups the glyph identifiers that have a width (glyph `i` having `widths[i]`) into runs
/// of consecutive identifiers, as the `W` array of a font describes them.
pub fn width_runs(widths: &Vec<Option<u32>>) -> (runs: Vec<(u16, Vec<u32>)>)
    requires
        widths@.len() <= 65535,
    ensures
        is_width_runs(runs_view(runs@), widths@),
{
    let mut runs: Vec<(u16, Vec<u32>)> = Vec::new();
    let mut current_lesser_glyph_id: u16 = 0;
    let mut current_upper_gid: u16 = 0;
    let mut current_widths: Vec<u32> = Vec::new();
    let mut glyph_id: u16 = 0;
    proof {
        let s = runs_view(runs@).push((current_lesser_glyph_id, current_widths@));
        assert(s.drop_last() =~= Seq::<(u16, Seq<u32>)>::empty());
        assert(run_entries(0, Seq::<u32>::empty()) =~= Seq::<(int, u32)>::empty());
        assert(flatten_runs(s.drop_last()) =~= Seq::<(int, u32)>::empty());
        assert(widths@.take(0) =~= Seq::<Option<u32>>::empty());
        assert(present_widths(widths@.take(0)) =~= Seq::<(int, u32)>::empty());
        assert(flatten_runs(s) =~= present_widths(widths@.take(0)));
    }
    while (glyph_id as usize) < widths.len()
        invariant
            widths@.len() <= 65535,
            glyph_id as int <= widths@.len(),
            current_upper_gid as int == current_lesser_glyph_id as int + current_widths@.len(),
            current_upper_gid <= glyph_id,
            well_formed_runs(runs_view(runs@).push((current_lesser_glyph_id, current_widths@))),
            flatten_runs(runs_view(runs@).push((current_lesser_glyph_id, current_widths@)))
                == present_widths(widths@.take(glyph_id as int)),
        decreases widths@.len() - glyph_id,
    {
        let ghost s = runs_view(runs@).push((current_lesser_glyph_id, current_widths@));
        let ghost prefix = widths@.take(glyph_id as int + 1);
        assert(prefix.drop_last() =~= widths@.take(glyph_id as int));
        assert(prefix.last() == widths@[glyph_id as int]);
        assert(s.last() == (current_lesser_glyph_id, current_widths@));
        match widths[glyph_id as usize] {
            Some(width) => {
                if glyph_id == current_upper_gid {
                    proof {
                        lemma_runs_extend(s, width);
                    }
                    current_widths.push(width);
                    current_upper_gid = current_upper_gid + 1;
                    assert(runs_view(runs@).push((current_lesser_glyph_id, current_widths@))
                        =~= s.drop_last().push((s.last().0, s.last().1.push(width))));
                } else {
                    proof {
                        lemma_runs_new(s, glyph_id, width);
                    }
                    let mut new_widths: Vec<u32> = Vec::new();
                    new_widths.push(width);
                    let mut finished = new_widths;
                    std::mem::swap(&mut finished, &mut current_widths);
                    runs.push((current_lesser_glyph_id, finished));
                    current_lesser_glyph_id = glyph_id;
                    current_upper_gid = glyph_id + 1;
                    assert(runs_view(runs@).push((current_lesser_glyph_id, current_widths@)) =~= s.push((glyph_id, seq![width])));
                }
            },
            None => {},
        }
        glyph_id = glyph_id + 1;
    }
    let ghost s = runs_view(runs@).push((current_lesser_glyph_id, current_widths@));
    runs.push((current_lesser_glyph_id, current_widths));
    assert(runs_view(runs@) =~= s);
    assert(widths@.take(widths@.len() as int) =~= widths@);
    runs
}

} // verus!
