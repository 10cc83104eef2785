//! The glyph container: a fixed-size header, fixed-stride glyph records,
//! 2-bit packed pixels, and the glyph and text renderers.
//!
//! Unlike the sprite container there is no offset indirection: a 2-byte
//! glyph size, a 32-bit glyph count, then one record per glyph.  On encode
//! the glyphs are written sorted by code (stably) with all-zero payloads
//! dropped, for deterministic persistence.

use crate::codec::{push_u32, r32, read_u32, u32_le, ContainerError};
use crate::sfsprite::copy_vec;
use vstd::prelude::*;

verus! {

/// One glyph: its character code, advance metrics, and 2-bit pixels packed
/// four to a byte.
#[derive(Debug, PartialEq, Eq)]
pub struct SFFontGraph {
    pub code: u32,
    pub width: u8,
    pub height: u8,
    pub data_width: u8,
    pub data: Vec<u8>,
}

/// A glyph container: the common glyph cell size and the glyphs.
#[derive(Debug, PartialEq, Eq)]
pub struct SFFont {
    pub graph_size: (u8, u8),
    pub graphs: Vec<SFFontGraph>,
}

/// Mathematical view of one glyph.
#[verifier::ext_equal]
pub struct GraphView {
    pub code: u32,
    pub width: u8,
    pub height: u8,
    pub data_width: u8,
    pub data: Seq<u8>,
}

/// Mathematical view of a glyph container.
#[verifier::ext_equal]
pub struct FontView {
    pub graph_size: (u8, u8),
    pub graphs: Seq<GraphView>,
}

impl View for SFFontGraph {
    type V = GraphView;

    open spec fn view(&self) -> GraphView {
        GraphView {
            code: self.code,
            width: self.width,
            height: self.height,
            data_width: self.data_width,
            data: self.data@,
        }
    }
}

impl View for SFFont {
    type V = FontView;

    open spec fn view(&self) -> FontView {
        FontView {
            graph_size: self.graph_size,
            graphs: self.graphs@.map_values(|g: SFFontGraph| g@),
        }
    }
}

/// The byte size of one glyph's pixel payload: a quarter of the cell's
/// pixel count.
pub open spec fn payload_len(size: (u8, u8)) -> int {
    (size.0 as int * size.1 as int) / 4
}

/// The decoded meaning of a glyph container: the 2-byte cell size, a
/// 32-bit glyph count, then fixed-stride records of a 7-byte head and the
/// payload.  Too few bytes for the declared count is `TruncatedInput`.
pub open spec fn spec_decode_font(s: Seq<u8>) -> Result<FontView, ContainerError> {
    if s.len() < 6 {
        Err(ContainerError::TruncatedInput)
    } else {
        let size = (s[0], s[1]);
        let count = r32(s, 2) as int;
        let rec = 7 + payload_len(size);
        if 6 + count * rec > s.len() {
            Err(ContainerError::TruncatedInput)
        } else {
            Ok(
                FontView {
                    graph_size: size,
                    graphs: Seq::new(
                        count as nat,
                        |i: int|
                            GraphView {
                                code: r32(s, 6 + i * rec),
                                width: s[6 + i * rec + 4],
                                height: s[6 + i * rec + 5],
                                data_width: s[6 + i * rec + 6],
                                data: s.subrange(6 + i * rec + 7, 6 + i * rec + rec),
                            },
                    ),
                },
            )
        }
    }
}

/// Whether any pixel of the glyph is set.
pub open spec fn graph_nonzero(g: GraphView) -> bool {
    exists|i: int| 0 <= i < g.data.len() && g.data[i] != 0
}

/// The glyphs that survive encoding: those with any pixel set, in their
/// original order.
pub open spec fn keep_nonzero(s: Seq<GraphView>) -> Seq<GraphView>
    decreases s.len(),
{
    if s.len() == 0 {
        Seq::empty()
    } else {
        keep_nonzero(s.drop_last()) + (if graph_nonzero(s.last()) {
            seq![s.last()]
        } else {
            Seq::empty()
        })
    }
}

/// Stable insertion of a glyph into a code-sorted run: it lands after
/// every glyph whose code is not larger.
pub open spec fn insert_sorted(g: GraphView, s: Seq<GraphView>) -> Seq<GraphView>
    decreases s.len(),
{
    if s.len() == 0 {
        seq![g]
    } else if g.code < s[0].code {
        seq![g] + s
    } else {
        seq![s[0]] + insert_sorted(g, s.drop_first())
    }
}

/// Stable insertion sort by glyph code, ascending.
pub open spec fn sort_by_code(s: Seq<GraphView>) -> Seq<GraphView>
    decreases s.len(),
{
    if s.len() == 0 {
        Seq::empty()
    } else {
        insert_sorted(s.last(), sort_by_code(s.drop_last()))
    }
}

/// Whether a glyph run is sorted by code, ascending.
pub open spec fn sorted_by_code(s: Seq<GraphView>) -> bool {
    forall|i: int, j: int| 0 <= i < j < s.len() ==> s[i].code <= s[j].code
}

/// Stable insertion keeps a code-sorted run sorted.
pub proof fn lemma_insert_sorted_preserves(g: GraphView, s: Seq<GraphView>)
    requires
        sorted_by_code(s),
    ensures
        sorted_by_code(insert_sorted(g, s)),
        insert_sorted(g, s).len() == s.len() + 1,
        insert_sorted(g, s).to_multiset() == s.push(g).to_multiset(),
    decreases s.len(),
{
    let r = insert_sorted(g, s);
    if s.len() == 0 {
        assert(seq![g].to_multiset() =~= s.push(g).to_multiset()) by {
            assert(seq![g] =~= s.push(g));
        }
    } else if g.code < s[0].code {
        assert(r == seq![g] + s);
        assert forall|i: int, j: int| 0 <= i < j < r.len() implies r[i].code <= r[j].code by {
            if i > 0 {
                assert(r[i] == s[i - 1] && r[j] == s[j - 1]);
            } else if j > 0 {
                assert(r[j] == s[j - 1]);
                if j > 1 {
                    assert(s[0].code <= s[j - 1].code);
                }
            }
        }
        assert((seq![g] + s) =~= s.insert(0, g));
        assert(s.insert(0, g).to_multiset() == s.push(g).to_multiset()) by {
            vstd::seq_lib::to_multiset_insert(s, 0, g);
            s.to_multiset_ensures();
        }
    } else {
        let tail = s.drop_first();
        assert(sorted_by_code(tail)) by {
            assert forall|i: int, j: int| 0 <= i < j < tail.len() implies tail[i].code
                <= tail[j].code by {
                assert(tail[i] == s[i + 1] && tail[j] == s[j + 1]);
            }
        }
        lemma_insert_sorted_preserves(g, tail);
        let rt = insert_sorted(g, tail);
        assert(r == seq![s[0]] + rt);
        assert forall|i: int, j: int| 0 <= i < j < r.len() implies r[i].code <= r[j].code by {
            if i == 0 {
                assert(r[j] == rt[j - 1]);
                assert(rt.to_multiset() == tail.push(g).to_multiset());
                assert(rt.to_multiset().contains(rt[j - 1])) by {
                    rt.to_multiset_ensures();
                }
                assert(tail.push(g).to_multiset().contains(rt[j - 1]));
                assert(tail.push(g).contains(rt[j - 1])) by {
                    tail.push(g).to_multiset_ensures();
                }
                let k = choose|k: int|
                    0 <= k < tail.push(g).len() && tail.push(g)[k] == rt[j - 1];
                if k < tail.len() {
                    assert(s[0].code <= s[k + 1].code);
                }
            } else {
                assert(r[i] == rt[i - 1] && r[j] == rt[j - 1]);
            }
        }
        assert(r.to_multiset() == s.push(g).to_multiset()) by {
            assert(r =~= rt.insert(0, s[0]));
            vstd::seq_lib::to_multiset_insert(rt, 0, s[0]);
            assert(r.to_multiset() == rt.to_multiset().insert(s[0]));
            assert(rt.to_multiset() == tail.push(g).to_multiset());
            assert(s.push(g) =~= tail.push(g).insert(0, s[0]));
            vstd::seq_lib::to_multiset_insert(tail.push(g), 0, s[0]);
            assert(s.push(g).to_multiset() == tail.push(g).to_multiset().insert(s[0]));
        }
    }
}

/// The insertion sort sorts: its result is ordered by code and holds the
/// very same glyphs.
pub proof fn lemma_sort_by_code_sorts(s: Seq<GraphView>)
    ensures
        sorted_by_code(sort_by_code(s)),
        sort_by_code(s).len() == s.len(),
        sort_by_code(s).to_multiset() == s.to_multiset(),
    decreases s.len(),
{
    if s.len() > 0 {
        let dl = s.drop_last();
        let g = s.last();
        lemma_sort_by_code_sorts(dl);
        lemma_insert_sorted_preserves(g, sort_by_code(dl));
        assert(sort_by_code(s).to_multiset() == sort_by_code(dl).push(g).to_multiset());
        assert(sort_by_code(dl).push(g).to_multiset() == sort_by_code(dl).to_multiset().insert(
            g,
        )) by {
            sort_by_code(dl).to_multiset_ensures();
        }
        assert(s.to_multiset() == dl.push(g).to_multiset()) by {
            assert(s =~= dl.push(g));
        }
        assert(dl.push(g).to_multiset() == dl.to_multiset().insert(g)) by {
            dl.to_multiset_ensures();
        }
        assert(sort_by_code(dl).to_multiset().insert(g) == dl.to_multiset().insert(g));
        assert(sort_by_code(s).to_multiset() == s.to_multiset());
    } else {
        assert(s =~= Seq::<GraphView>::empty());
    }
}

/// Byte `k` of one serialized glyph record.
pub open spec fn graph_byte(g: GraphView, k: int) -> u8 {
    if k == 0 {
        u32_le(g.code)[0]
    } else if k == 1 {
        u32_le(g.code)[1]
    } else if k == 2 {
        u32_le(g.code)[2]
    } else if k == 3 {
        u32_le(g.code)[3]
    } else if k == 4 {
        g.width
    } else if k == 5 {
        g.height
    } else if k == 6 {
        g.data_width
    } else {
        g.data[k - 7]
    }
}

/// The serialized glyph container for a given glyph run.
pub open spec fn font_bytes(size: (u8, u8), graphs: Seq<GraphView>) -> Seq<u8> {
    let rec = 7 + payload_len(size);
    seq![size.0, size.1] + u32_le(graphs.len() as u32) + Seq::new(
        (graphs.len() * rec) as nat,
        |t: int| graph_byte(graphs[t / rec], t % rec),
    )
}

/// What the font encoder accepts: every glyph payload has the cell's
/// exact byte size, and the glyph count fits its 32-bit field.
pub open spec fn font_encodable(f: FontView) -> bool {
    &&& forall|i: int|
        0 <= i < f.graphs.len() ==> (#[trigger] f.graphs[i]).data.len() == payload_len(
            f.graph_size,
        )
    &&& f.graphs.len() <= 0xFFFF_FFFF
}

/// The bytes the font encoder writes: the surviving glyphs, sorted.
pub open spec fn spec_encode_font(f: FontView) -> Seq<u8> {
    font_bytes(f.graph_size, sort_by_code(keep_nonzero(f.graphs)))
}


impl Clone for SFFontGraph {
    /// A deep copy with the very same view.
    fn clone(&self) -> (r: Self)
        ensures
            r@ == self@,
    {
        SFFontGraph {
            code: self.code,
            width: self.width,
            height: self.height,
            data_width: self.data_width,
            data: copy_vec(&self.data),
        }
    }
}

/// Decodes a glyph container.  The result is exactly what
/// [`spec_decode_font`] gives for the input bytes.
pub fn decode_font(bytes: &[u8]) -> (r: Result<SFFont, ContainerError>)
    ensures
        match r {
            Ok(f) => spec_decode_font(bytes@) == Ok::<FontView, ContainerError>(f@),
            Err(e) => spec_decode_font(bytes@) == Err::<FontView, ContainerError>(e),
        },
{
    let len: u64 = bytes.len() as u64;
    if bytes.len() < 6 {
        return Err(ContainerError::TruncatedInput);
    }
    let w0: u8 = bytes[0];
    let h0: u8 = bytes[1];
    let count: u64 = read_u32(bytes, 2) as u64;
    proof {
        assert(w0 as u64 * h0 as u64 <= 65025) by (nonlinear_arith)
            requires
                w0 <= 255,
                h0 <= 255,
        ;
    }
    let gsize: u64 = (w0 as u64 * h0 as u64) / 4;
    let rec: u64 = 7 + gsize;
    proof {
        assert(count * rec <= 0xFFFF_FFFF * 16263) by (nonlinear_arith)
            requires
                count <= 0xFFFF_FFFF,
                rec <= 16263,
        ;
    }
    if 6 + count * rec > len {
        return Err(ContainerError::TruncatedInput);
    }
    let ghost gspecs: Seq<GraphView> = spec_decode_font(bytes@)->Ok_0.graphs;
    let mut graphs: Vec<SFFontGraph> = Vec::new();
    let mut i: u64 = 0;
    while i < count
        invariant
            0 <= i <= count,
            6 + count * rec <= len,
            len == bytes@.len(),
            len <= usize::MAX,
            rec == 7 + payload_len((w0, h0)),
            7 <= rec <= 16263,
            gspecs.len() == count,
            forall|j: int| 0 <= j < count ==> #[trigger] gspecs[j] == (GraphView {
                code: r32(bytes@, 6 + j * rec),
                width: bytes@[6 + j * rec + 4],
                height: bytes@[6 + j * rec + 5],
                data_width: bytes@[6 + j * rec + 6],
                data: bytes@.subrange(6 + j * rec + 7, 6 + j * rec + rec),
            }),
            graphs@.len() == i,
            forall|j: int| 0 <= j < i ==> (#[trigger] graphs@[j])@ == gspecs[j],
        decreases count - i,
    {
        proof {
            assert(i * rec + rec <= count * rec) by (nonlinear_arith)
                requires
                    0 <= i < count,
                    0 <= rec,
            ;
        }
        let base64: u64 = 6 + i * rec;
        proof {
            assert(base64 + rec <= len);
        }
        let base: usize = base64 as usize;
        let code: u32 = read_u32(bytes, base);
        let data: Vec<u8> = vstd::slice::slice_to_vec(
            vstd::slice::slice_subrange(bytes, base + 7, base + rec as usize),
        );
        let g = SFFontGraph {
            code,
            width: bytes[base + 4],
            height: bytes[base + 5],
            data_width: bytes[base + 6],
            data,
        };
        proof {
            assert(g@ =~= gspecs[i as int]);
        }
        graphs.push(g);
        i = i + 1;
    }
    let f = SFFont { graph_size: (w0, h0), graphs };
    proof {
        assert(f@.graphs =~~= gspecs);
        assert(f@ =~~= spec_decode_font(bytes@)->Ok_0);
    }
    Ok(f)
}

/// Whether any byte of a payload is set.
fn has_nonzero(v: &Vec<u8>) -> (b: bool)
    ensures
        b == exists|i: int| 0 <= i < v@.len() && v@[i] != 0,
{
    let mut i: usize = 0;
    while i < v.len()
        invariant
            0 <= i <= v@.len(),
            forall|j: int| 0 <= j < i ==> v@[j] == 0,
        decreases v@.len() - i,
    {
        if v[i] != 0 {
            return true;
        }
        i = i + 1;
    }
    false
}

/// Inserting at the first position whose code is larger is the stable
/// sorted insertion.
proof fn lemma_insert_sorted_at(g: GraphView, s: Seq<GraphView>, p: int)
    requires
        0 <= p <= s.len(),
        forall|j: int| 0 <= j < p ==> s[j].code <= g.code,
        p < s.len() ==> g.code < s[p].code,
    ensures
        insert_sorted(g, s) == s.take(p) + seq![g] + s.skip(p),
    decreases s.len(),
{
    if s.len() == 0 {
        assert(insert_sorted(g, s) =~= s.take(0) + seq![g] + s.skip(0));
    } else if g.code < s[0].code {
        assert(p == 0);
        assert(seq![g] + s =~= s.take(0) + seq![g] + s.skip(0));
    } else {
        assert(p >= 1);
        let tail = s.drop_first();
        assert(forall|j: int| 0 <= j < p - 1 ==> #[trigger] tail[j].code <= g.code);
        lemma_insert_sorted_at(g, tail, p - 1);
        assert(seq![s[0]] + (tail.take(p - 1) + seq![g] + tail.skip(p - 1)) =~= s.take(p)
            + seq![g] + s.skip(p));
    }
}

/// Sorts glyphs by code, stably, by insertion.
fn sort_graphs(v: Vec<SFFontGraph>) -> (r: Vec<SFFontGraph>)
    ensures
        r@.map_values(|g: SFFontGraph| g@) == sort_by_code(v@.map_values(|g: SFFontGraph| g@)),
{
    let ghost input: Seq<GraphView> = v@.map_values(|g: SFFontGraph| g@);
    let mut v = v;
    let mut out: Vec<SFFontGraph> = Vec::new();
    let ghost total: int = input.len() as int;
    while v.len() > 0
        invariant
            v@.map_values(|g: SFFontGraph| g@) =~= input.skip(total - v@.len()),
            0 <= total - v@.len() <= total,
            total == input.len(),
            out@.map_values(|g: SFFontGraph| g@) == sort_by_code(input.take(total - v@.len())),
            sorted_by_code(out@.map_values(|g: SFFontGraph| g@)),
        decreases v@.len(),
    {
        let ghost done: int = total - v@.len();
        let ghost outv = out@.map_values(|g: SFFontGraph| g@);
        let ghost prevv = v@.map_values(|gg: SFFontGraph| gg@);
        let g = v.remove(0);
        proof {
            assert(prevv =~= input.skip(done));
            assert(g@ == prevv[0]);
            assert(input.skip(done)[0] == input[done]);
            assert(v@.map_values(|gg: SFFontGraph| gg@) =~= prevv.drop_first());
            assert(prevv.drop_first() =~= input.skip(done + 1));
        }
        let mut p: usize = out.len();
        while p > 0 && out[p - 1].code > g.code
            invariant
                0 <= p <= out@.len(),
                outv == out@.map_values(|gg: SFFontGraph| gg@),
                forall|j: int| p <= j < outv.len() ==> g@.code < #[trigger] outv[j].code,
            decreases p,
        {
            p = p - 1;
        }
        proof {
            assert(forall|j: int| 0 <= j < p ==> (#[trigger] outv[j]).code <= g@.code) by {
                if p > 0 {
                    assert(outv[p - 1] == out@[p - 1]@);
                    assert forall|j: int| 0 <= j < p implies (#[trigger] outv[j]).code
                        <= g@.code by {
                        assert(outv[j].code <= outv[p - 1].code);
                    }
                }
            }
            lemma_insert_sorted_at(g@, outv, p as int);
        }
        out.insert(p, g);
        proof {
            let newv = out@.map_values(|gg: SFFontGraph| gg@);
            assert(newv =~= outv.take(p as int) + seq![g@] + outv.skip(p as int));
            assert(newv == insert_sorted(g@, outv));
            assert(input.take(done + 1).drop_last() =~= input.take(done));
            assert(input.take(done + 1).last() == input[done]);
            assert(sort_by_code(input.take(done + 1)) == insert_sorted(
                input[done],
                sort_by_code(input.take(done)),
            ));
            lemma_insert_sorted_preserves(g@, outv);
        }
    }
    proof {
        assert(input.take(total) =~= input);
    }
    out
}

/// Every element of a run with the same multiset as another appears in the
/// other.
proof fn lemma_multiset_members(a: Seq<GraphView>, b: Seq<GraphView>)
    requires
        a.to_multiset() == b.to_multiset(),
    ensures
        forall|i: int| 0 <= i < b.len() ==> a.contains(#[trigger] b[i]),
{
    assert forall|i: int| 0 <= i < b.len() implies a.contains(#[trigger] b[i]) by {
        b.to_multiset_ensures();
        a.to_multiset_ensures();
        assert(b.contains(b[i]));
        assert(b.to_multiset().count(b[i]) > 0);
        assert(a.to_multiset().count(b[i]) > 0);
        assert(a.contains(b[i]));
    }
}

/// The glyphs kept by the filter, over a growing prefix.
proof fn lemma_keep_nonzero_step(s: Seq<GraphView>, i: int)
    requires
        0 <= i < s.len(),
    ensures
        keep_nonzero(s.take(i + 1)) == keep_nonzero(s.take(i)) + (if graph_nonzero(s[i]) {
            seq![s[i]]
        } else {
            Seq::<GraphView>::empty()
        }),
{
    assert(s.take(i + 1).drop_last() =~= s.take(i));
    assert(s.take(i + 1).last() == s[i]);
}

/// Encodes a glyph container.  Succeeds exactly on [`font_encodable`]
/// containers — every payload has the cell's byte size and the glyph count
/// fits 32 bits — and then returns exactly the bytes of
/// [`spec_encode_font`]: the all-zero glyphs dropped, the rest sorted by
/// code and written at a fixed stride.
pub fn encode_font(font: &SFFont) -> (r: Result<Vec<u8>, ContainerError>)
    ensures
        match r {
            Ok(b) => font_encodable(font@) && b@ == spec_encode_font(font@),
            Err(e) => !font_encodable(font@) && e == ContainerError::MalformedSection,
        },
{
    let ghost fview = font@;
    let w0: u8 = font.graph_size.0;
    let h0: u8 = font.graph_size.1;
    proof {
        assert(w0 as usize * h0 as usize <= 65025) by (nonlinear_arith)
            requires
                w0 <= 255,
                h0 <= 255,
        ;
    }
    let gsize: usize = (w0 as usize * h0 as usize) / 4;
    if font.graphs.len() > 0xFFFF_FFFFusize {
        return Err(ContainerError::MalformedSection);
    }
    let mut i: usize = 0;
    while i < font.graphs.len()
        invariant
            0 <= i <= font.graphs@.len(),
            fview == font@,
            gsize == payload_len(fview.graph_size),
            forall|j: int|
                0 <= j < i ==> (#[trigger] fview.graphs[j]).data.len() == payload_len(
                    fview.graph_size,
                ),
        decreases font.graphs@.len() - i,
    {
        if font.graphs[i].data.len() != gsize {
            proof {
                assert(fview.graphs[i as int].data.len() != payload_len(fview.graph_size));
            }
            return Err(ContainerError::MalformedSection);
        }
        i = i + 1;
    }
    let mut kept: Vec<SFFontGraph> = Vec::new();
    let mut i: usize = 0;
    while i < font.graphs.len()
        invariant
            0 <= i <= font.graphs@.len(),
            fview == font@,
            kept@.map_values(|g: SFFontGraph| g@) == keep_nonzero(fview.graphs.take(i as int)),
            kept@.len() <= i,
        decreases font.graphs@.len() - i,
    {
        let ghost keptv = kept@.map_values(|g: SFFontGraph| g@);
        proof {
            assert(fview.graphs[i as int] == font.graphs@[i as int]@);
        }
        if has_nonzero(&font.graphs[i].data) {
            proof {
                let w = choose|t: int|
                    0 <= t < font.graphs@[i as int].data@.len() && font.graphs@[i as int].data@[t]
                        != 0;
                assert(fview.graphs[i as int].data[w] != 0);
            }
            kept.push(font.graphs[i].clone());
            proof {
                assert(graph_nonzero(fview.graphs[i as int]));
                assert(kept@.map_values(|g: SFFontGraph| g@) =~= keptv + seq![
                    fview.graphs[i as int],
                ]);
                lemma_keep_nonzero_step(fview.graphs, i as int);
            }
        } else {
            proof {
                assert(!graph_nonzero(fview.graphs[i as int]));
                lemma_keep_nonzero_step(fview.graphs, i as int);
                assert(keptv + Seq::<GraphView>::empty() =~= keptv);
            }
        }
        i = i + 1;
    }
    proof {
        assert(fview.graphs.take(fview.graphs.len() as int) =~= fview.graphs);
    }
    let sorted: Vec<SFFontGraph> = sort_graphs(kept);
    let ghost keptv = keep_nonzero(fview.graphs);
    let ghost sortedv = sort_by_code(keptv);
    proof {
        lemma_sort_by_code_sorts(keptv);
        lemma_multiset_members(keptv, sortedv);
        assert(forall|j: int|
            0 <= j < keptv.len() ==> (#[trigger] keptv[j]).data.len() == payload_len(
                fview.graph_size,
            )) by {
            lemma_keep_nonzero_lens(fview.graphs, fview.graphs.len() as int, fview.graph_size);
        }
        assert forall|j: int| 0 <= j < sortedv.len() implies (#[trigger] sortedv[j]).data.len()
            == payload_len(fview.graph_size) by {
            assert(keptv.contains(sortedv[j]));
            let k = choose|k: int| 0 <= k < keptv.len() && keptv[k] == sortedv[j];
        }
        assert(sortedv.len() <= fview.graphs.len());
    }
    let rec: usize = 7 + gsize;
    let mut out: Vec<u8> = Vec::new();
    out.push(w0);
    out.push(h0);
    push_u32(&mut out, sorted.len() as u32);
    let ghost head = seq![w0, h0] + u32_le(sortedv.len() as u32);
    let ghost body = Seq::new(
        (sortedv.len() * (7 + payload_len(fview.graph_size))) as nat,
        |t: int|
            graph_byte(
                sortedv[t / (7 + payload_len(fview.graph_size))],
                t % (7 + payload_len(fview.graph_size)),
            ),
    );
    proof {
        assert(out@ =~= head + body.take(0));
    }
    let mut j: usize = 0;
    while j < sorted.len()
        invariant
            0 <= j <= sorted@.len(),
            sorted@.map_values(|g: SFFontGraph| g@) == sortedv,
            gsize == payload_len(fview.graph_size),
            rec == 7 + gsize,
            forall|t: int|
                0 <= t < sortedv.len() ==> (#[trigger] sortedv[t]).data.len() == payload_len(
                    fview.graph_size,
                ),
            head.len() == 6,
            body == Seq::new(
                (sortedv.len() * rec) as nat,
                |t: int| graph_byte(sortedv[t / rec as int], t % rec as int),
            ),
            out@ == head + body.take(rec * j),
        decreases sorted@.len() - j,
    {
        let g: &SFFontGraph = &sorted[j];
        proof {
            assert(g@ == sortedv[j as int]);
        }
        push_u32(&mut out, g.code);
        out.push(g.width);
        out.push(g.height);
        out.push(g.data_width);
        let mut t: usize = 0;
        while t < gsize
            invariant
                0 <= t <= gsize,
                g@ == sortedv[j as int],
                0 <= j < sortedv.len(),
                g@.data.len() == gsize,
                gsize == payload_len(fview.graph_size),
                rec == 7 + gsize,
                forall|q: int|
                    0 <= q < sortedv.len() ==> (#[trigger] sortedv[q]).data.len() == payload_len(
                        fview.graph_size,
                    ),
                head.len() == 6,
                body == Seq::new(
                    (sortedv.len() * rec) as nat,
                    |q: int| graph_byte(sortedv[q / rec as int], q % rec as int),
                ),
                out@ == head + body.take(rec * j) + u32_le(g@.code) + seq![
                    g@.width,
                    g@.height,
                    g@.data_width,
                ] + g@.data.take(t as int),
            decreases gsize - t,
        {
            out.push(g.data[t]);
            proof {
                assert(out@ =~= head + body.take(rec * j) + u32_le(g@.code) + seq![
                    g@.width,
                    g@.height,
                    g@.data_width,
                ] + g@.data.take(t as int + 1));
            }
            t = t + 1;
        }
        proof {
            let jj = j as int;
            let rr = rec as int;
            assert forall|q: int| 0 <= q < rr implies #[trigger] body[rr * jj + q] == graph_byte(
                sortedv[jj],
                q,
            ) by {
                assert((rr * jj + q) / rr == jj && (rr * jj + q) % rr == q) by (nonlinear_arith)
                    requires
                        0 <= jj,
                        0 <= q < rr,
                        0 < rr,
                ;
                assert(rr * jj + q < sortedv.len() * rr) by (nonlinear_arith)
                    requires
                        0 <= q < rr,
                        0 <= jj < sortedv.len(),
                        0 < rr,
                ;
                assert(body[rr * jj + q] == graph_byte(sortedv[(rr * jj + q) / rr], (rr * jj + q)
                    % rr));
            }
            assert(g@.data.take(gsize as int) =~= g@.data);
            let recbytes = u32_le(g@.code) + seq![g@.width, g@.height, g@.data_width] + g@.data;
            assert(recbytes.len() == rr);
            assert forall|q: int| 0 <= q < rr implies recbytes[q] == graph_byte(
                sortedv[jj],
                q,
            ) by {
                if q >= 7 {
                    assert(recbytes[q] == g@.data[q - 7]);
                }
            }
            assert(rr * (jj + 1) == rr * jj + rr) by (nonlinear_arith);
            assert(rr * (jj + 1) <= sortedv.len() * rr) by (nonlinear_arith)
                requires
                    0 <= jj < sortedv.len(),
                    0 < rr,
            ;
            assert forall|t: int| 0 <= t < rr * (jj + 1) implies #[trigger] body.take(
                rr * (jj + 1),
            )[t] == (body.take(rr * jj) + recbytes)[t] by {
                if t >= rr * jj {
                    let q = t - rr * jj;
                    assert(body[rr * jj + q] == graph_byte(sortedv[jj], q));
                    assert(recbytes[q] == graph_byte(sortedv[jj], q));
                }
            }
            assert(body.take(rr * (jj + 1)) =~= body.take(rr * jj) + recbytes);
            assert(out@ =~= head + body.take(rec * (j + 1)));
        }
        j = j + 1;
    }
    proof {
        assert(rec * sorted@.len() == sortedv.len() * rec as int) by (nonlinear_arith)
            requires
                sorted@.len() == sortedv.len(),
        ;
        assert(body.take((sortedv.len() * rec) as int) =~= body);
        assert(out@ =~= spec_encode_font(fview));
    }
    Ok(out)
}

/// Every kept glyph's payload keeps its size.
proof fn lemma_keep_nonzero_lens(s: Seq<GraphView>, n: int, size: (u8, u8))
    requires
        0 <= n <= s.len(),
        forall|i: int| 0 <= i < s.len() ==> (#[trigger] s[i]).data.len() == payload_len(size),
    ensures
        forall|i: int|
            0 <= i < keep_nonzero(s.take(n)).len() ==> (#[trigger] keep_nonzero(s.take(n))[i])
                .data.len() == payload_len(size),
    decreases n,
{
    if n > 0 {
        lemma_keep_nonzero_lens(s, n - 1, size);
        lemma_keep_nonzero_step(s, n - 1);
        assert(s.take(n - 1 + 1) == s.take(n));
        let prev = keep_nonzero(s.take(n - 1));
        let cur = keep_nonzero(s.take(n));
        assert forall|i: int| 0 <= i < cur.len() implies (#[trigger] cur[i]).data.len()
            == payload_len(size) by {
            if i < prev.len() {
                assert(cur[i] == prev[i]);
            } else {
                assert(cur[i] == s[n - 1]);
            }
        }
    } else {
        assert(s.take(0) =~= Seq::<GraphView>::empty());
    }
}


/// One draw event of the glyph renderers: a coordinate and a 2-bit pixel
/// value.
#[derive(Clone, Copy, Debug, PartialEq, Eq, Structural)]
pub struct GlyphPixel {
    pub x: usize,
    pub y: usize,
    pub value: u8,
}

/// The draw events of one glyph's packed pixels: rows of `data_width / 4`
/// bytes, each byte four 2-bit pixels low bits first, a trailing partial
/// row dropped.  A glyph whose row width packs to no whole byte draws
/// nothing.
pub open spec fn glyph_pixels(g: GraphView) -> Seq<GlyphPixel> {
    let k = g.data_width as int / 4;
    if k <= 0 {
        Seq::empty()
    } else {
        let rk4 = 4 * k;
        Seq::new(
            ((g.data.len() as int / k) * rk4) as nat,
            |t: int|
                GlyphPixel {
                    x: (t % rk4) as usize,
                    y: (t / rk4) as usize,
                    value: (g.data[(t / rk4) * k + (t % rk4) / 4] >> ((2 * ((t % rk4) % 4)) as u8))
                        & 3,
                },
        )
    }
}

impl SFFontGraph {
    /// Renders this glyph's packed pixels: exactly [`glyph_pixels`], in
    /// row-major order.
    pub fn draw_graph(&self) -> (r: Vec<GlyphPixel>)
        ensures
            r@ == glyph_pixels(self@),
    {
        let mut out: Vec<GlyphPixel> = Vec::new();
        let k: usize = (self.data_width / 4) as usize;
        if k == 0 {
            return out;
        }
        let rows: usize = self.data.len() / k;
        let rk4: usize = 4 * k;
        let ghost gv = self@;
        let mut y: usize = 0;
        while y < rows
            invariant
                0 <= y <= rows,
                gv == self@,
                1 <= k <= 63,
                k == gv.data_width as int / 4,
                rk4 == 4 * k,
                rows == gv.data.len() as int / k as int,
                gv.data.len() <= usize::MAX,
                out@.len() == y * rk4,
                forall|t: int| 0 <= t < y * rk4 ==> out@[t] == glyph_pixels(gv)[t],
            decreases rows - y,
        {
            let mut p: usize = 0;
            while p < rk4
                invariant
                    0 <= p <= rk4,
                    0 <= y < rows,
                    gv == self@,
                    1 <= k <= 63,
                    k == gv.data_width as int / 4,
                    rk4 == 4 * k,
                    rows == gv.data.len() as int / k as int,
                    gv.data.len() <= usize::MAX,
                    out@.len() == y * rk4 + p,
                    forall|t: int| 0 <= t < y * rk4 + p ==> out@[t] == glyph_pixels(gv)[t],
                decreases rk4 - p,
            {
                proof {
                    assert(y * k + k <= rows * k) by (nonlinear_arith)
                        requires
                            0 <= y < rows,
                            0 < k,
                    ;
                    assert(rows * k <= gv.data.len()) by (nonlinear_arith)
                        requires
                            rows == gv.data.len() as int / k as int,
                            0 < k,
                    ;
                    assert(p / 4 < k) by (nonlinear_arith)
                        requires
                            0 <= p < 4 * k,
                    ;
                }
                let b: u8 = self.data[y * k + p / 4];
                let shift: usize = 2 * (p % 4);
                let ev = GlyphPixel { x: p, y, value: (b >> shift as u8) & 3 };
                out.push(ev);
                proof {
                    let t0: int = y as int * rk4 as int + p as int;
                    assert(t0 < rows as int * rk4 as int && t0 % (rk4 as int) == p as int && t0
                        / (rk4 as int) == y as int) by (nonlinear_arith)
                        requires
                            0 <= p < rk4,
                            0 <= y < rows,
                            rk4 == 4 * k,
                            0 < k,
                            t0 == y as int * rk4 as int + p as int,
                    ;
                    assert(rows as int * rk4 as int == (gv.data.len() as int / k as int) * (4 * k));
                    assert(glyph_pixels(gv)[t0] == ev);
                    assert(y * rk4 + (p + 1) == t0 + 1);
                }
                p = p + 1;
            }
            proof {
                assert((y + 1) * rk4 == y * rk4 + rk4) by (nonlinear_arith);
            }
            y = y + 1;
        }
        proof {
            assert(out@.len() == rows as int * rk4 as int);
            assert(rows as int * rk4 as int == (gv.data.len() as int / k as int) * (4 * k));
            assert(out@ =~= glyph_pixels(gv));
        }
        out
    }
}

/// The index of the first glyph with the given code, or -1 when the font
/// has none.
pub open spec fn graph_index(graphs: Seq<GraphView>, code: u32) -> int
    decreases graphs.len(),
{
    if graphs.len() == 0 {
        -1
    } else if graphs[0].code == code {
        0
    } else {
        let rest = graph_index(graphs.drop_first(), code);
        if rest < 0 {
            -1
        } else {
            1 + rest
        }
    }
}

/// Where the first match stands, given that the first `i` glyphs miss.
proof fn lemma_graph_index_split(graphs: Seq<GraphView>, code: u32, i: int)
    requires
        0 <= i <= graphs.len(),
        forall|j: int| 0 <= j < i ==> (#[trigger] graphs[j]).code != code,
    ensures
        graph_index(graphs, code) == {
            let rest = graph_index(graphs.skip(i), code);
            if rest < 0 {
                -1
            } else {
                i + rest
            }
        },
    decreases i,
{
    if i == 0 {
        assert(graphs.skip(0) =~= graphs);
    } else {
        assert(graphs.len() > 0);
        let tail = graphs.drop_first();
        assert(forall|j: int| 0 <= j < i - 1 ==> (#[trigger] tail[j]).code != code) by {
            assert(forall|j: int| 0 <= j < i - 1 ==> tail[j] == graphs[j + 1]);
        }
        lemma_graph_index_split(tail, code, i - 1);
        assert(tail.skip(i - 1) =~= graphs.skip(i));
    }
}

impl SFFont {
    /// The first glyph with the character's code, or nothing.
    pub fn get_graph(&self, code: char) -> (r: Option<&SFFontGraph>)
        ensures
            match r {
                Some(g) => graph_index(self@.graphs, code as u32) >= 0 && g@ == self@.graphs[graph_index(self@.graphs, code as u32)],
                None => graph_index(self@.graphs, code as u32) < 0,
            },
    {
        let c: u32 = code as u32;
        let mut i: usize = 0;
        while i < self.graphs.len()
            invariant
                0 <= i <= self.graphs@.len(),
                c == code as u32,
                forall|j: int| 0 <= j < i ==> (#[trigger] self@.graphs[j]).code != c,
            decreases self.graphs@.len() - i,
        {
            if self.graphs[i].code == c {
                proof {
                    lemma_graph_index_split(self@.graphs, c, i as int);
                    assert(self@.graphs.skip(i as int)[0] == self@.graphs[i as int]);
                }
                return Some(&self.graphs[i]);
            }
            i = i + 1;
        }
        proof {
            lemma_graph_index_split(self@.graphs, c, self.graphs@.len() as int);
            assert(self@.graphs.skip(self.graphs@.len() as int) =~= Seq::<GraphView>::empty());
        }
        None
    }
}

/// The draw events of one character drawn through the font's byte-per-
/// pixel path: one event per payload byte, laid out in rows of the glyph's
/// advance width.  A missing character, or one whose advance width is
/// zero, draws nothing.
pub open spec fn spec_font_draw_graph(f: FontView, code: u32) -> Seq<GlyphPixel> {
    let gi = graph_index(f.graphs, code);
    if gi < 0 {
        Seq::empty()
    } else {
        let g = f.graphs[gi];
        if g.width == 0 {
            Seq::empty()
        } else {
            Seq::new(
                g.data.len(),
                |i: int|
                    GlyphPixel {
                        x: (i % g.width as int) as usize,
                        y: (i / g.width as int) as usize,
                        value: g.data[i],
                    },
            )
        }
    }
}

impl SFFont {
    /// Renders one character through the byte-per-pixel path: exactly
    /// [`spec_font_draw_graph`].
    pub fn draw_graph(&self, code: char) -> (r: Vec<GlyphPixel>)
        ensures
            r@ == spec_font_draw_graph(self@, code as u32),
    {
        let mut out: Vec<GlyphPixel> = Vec::new();
        let g: &SFFontGraph = match self.get_graph(code) {
            Some(g) => g,
            None => {
                return out;
            },
        };
        if g.width == 0 {
            return out;
        }
        let w: usize = g.width as usize;
        let ghost gv = g@;
        let mut i: usize = 0;
        while i < g.data.len()
            invariant
                0 <= i <= gv.data.len(),
                gv == g@,
                w == gv.width as int,
                w > 0,
                out@.len() == i,
                forall|t: int|
                    0 <= t < i ==> out@[t] == (GlyphPixel {
                        x: (t % gv.width as int) as usize,
                        y: (t / gv.width as int) as usize,
                        value: gv.data[t],
                    }),
            decreases gv.data.len() - i,
        {
            out.push(GlyphPixel { x: i % w, y: i / w, value: g.data[i] });
            i = i + 1;
        }
        proof {
            assert(out@ =~= spec_font_draw_graph(self@, code as u32));
        }
        out
    }
}

/// The draw events of a text, one character at a time from pen position
/// `(x, y)`: a line break resets the pen to the left edge one cell height
/// down, a known character stamps its packed pixels at the pen and
/// advances by its width, an unknown character is skipped.
pub open spec fn text_pixels(f: FontView, chars: Seq<char>, i: int, x: int, y: int) -> Seq<
    GlyphPixel,
>
    decreases chars.len() - i,
{
    if i < 0 || i >= chars.len() {
        Seq::empty()
    } else if chars[i] == '\n' {
        text_pixels(f, chars, i + 1, 0, y + f.graph_size.1 as int)
    } else {
        let gi = graph_index(f.graphs, chars[i] as u32);
        if gi < 0 {
            text_pixels(f, chars, i + 1, x, y)
        } else {
            let g = f.graphs[gi];
            glyph_pixels(g).map_values(
                |p: GlyphPixel|
                    GlyphPixel { x: (x + p.x) as usize, y: (y + p.y) as usize, value: p.value },
            ) + text_pixels(f, chars, i + 1, x + g.width as int, y)
        }
    }
}

impl SFFont {
    /// Renders a text left to right: exactly [`text_pixels`] from the
    /// origin.
    pub fn draw_text(&self, text: &str) -> (r: Vec<GlyphPixel>)
        ensures
            r@ == text_pixels(self@, text@, 0, 0, 0),
    {
        let chars: Vec<char> = chars_of(text);
        let total_chars: usize = chars.len();
        proof {
            assert(text@.len() == total_chars);
        }
        let ghost fv = self@;
        let ghost cs = text@;
        let mut out: Vec<GlyphPixel> = Vec::new();
        let mut x: u128 = 0;
        let mut y: u128 = 0;
        let mut i: usize = 0;
        while i < chars.len()
            invariant
                0 <= i <= cs.len(),
                cs.len() <= usize::MAX,
                chars@ == cs,
                fv == self@,
                x <= 0xFF * i,
                y <= 0xFF * i,
                text_pixels(fv, cs, 0, 0, 0) == out@ + text_pixels(fv, cs, i as int, x as int, y as int),
            decreases cs.len() - i,
        {
            let c: char = chars[i];
            let ghost prev = out@;
            if c == '\n' {
                x = 0;
                y = y + self.graph_size.1 as u128;
            } else {
                match self.get_graph(c) {
                    None => {
                    },
                    Some(g) => {
                        let ghost gv = g@;
                        let pixels: Vec<GlyphPixel> = g.draw_graph();
                        let ghost stamped = glyph_pixels(gv).map_values(
                            |p: GlyphPixel|
                                GlyphPixel {
                                    x: (x as int + p.x) as usize,
                                    y: (y as int + p.y) as usize,
                                    value: p.value,
                                },
                        );
                        let mut t: usize = 0;
                        while t < pixels.len()
                            invariant
                                0 <= t <= pixels@.len(),
                                pixels@ == glyph_pixels(gv),
                                x <= 0xFF * cs.len(),
                                y <= 0xFF * cs.len(),
                                cs.len() <= usize::MAX,
                                stamped == glyph_pixels(gv).map_values(
                                    |p: GlyphPixel|
                                        GlyphPixel {
                                            x: (x as int + p.x) as usize,
                                            y: (y as int + p.y) as usize,
                                            value: p.value,
                                        },
                                ),
                                out@ == prev + stamped.take(t as int),
                            decreases pixels@.len() - t,
                        {
                            let p: GlyphPixel = pixels[t];
                            out.push(
                                GlyphPixel {
                                    x: #[verifier::truncate] ((x + p.x as u128) as usize),
                                    y: #[verifier::truncate] ((y + p.y as u128) as usize),
                                    value: p.value,
                                },
                            );
                            proof {
                                assert(x + p.x as u128 == x as int + glyph_pixels(gv)[t as int].x);
                                assert(out@ =~= prev + stamped.take(t as int + 1));
                            }
                            t = t + 1;
                        }
                        proof {
                            assert(stamped.take(pixels@.len() as int) =~= stamped);
                        }
                        x = x + g.width as u128;
                    },
                }
            }
            proof {
                assert(prev + (out@.skip(prev.len() as int) + text_pixels(
                    fv,
                    cs,
                    i as int + 1,
                    x as int,
                    y as int,
                )) =~= out@ + text_pixels(fv, cs, i as int + 1, x as int, y as int)) by {
                    assert(out@.skip(prev.len() as int) =~= out@.skip(prev.len() as int));
                    assert(prev + out@.skip(prev.len() as int) =~= out@);
                }
            }
            i = i + 1;
        }
        proof {
            assert(out@ + text_pixels(fv, cs, cs.len() as int, x as int, y as int) =~= out@);
        }
        out
    }
}

/// The characters of a string, in order.
fn chars_of(s: &str) -> (r: Vec<char>)
    ensures
        r@ == s@,
{
    let mut out: Vec<char> = Vec::new();
    let mut it = s.chars();
    proof {
        vstd::string::axiom_spec_iter(s);
    }
    loop
        invariant
            out@ + vstd::std_specs::iter::IteratorSpec::remaining(&it) == s@,
            vstd::std_specs::iter::IteratorSpec::obeys_prophetic_iter_laws(&it),
            vstd::std_specs::iter::IteratorSpec::decrease(&it) is Some,
        decreases vstd::std_specs::iter::IteratorSpec::decrease(&it)->Some_0,
    {
        let ghost prev = it;
        let ghost prev_out = out@;
        let next = it.next();
        proof {
            vstd::string::next_postcondition(&prev, &it, next);
        }
        match next {
            Some(c) => {
                out.push(c);
                proof {
                    assert(out@ + vstd::std_specs::iter::IteratorSpec::remaining(&it) =~= prev_out
                        + vstd::std_specs::iter::IteratorSpec::remaining(&prev));
                }
            },
            None => {
                proof {
                    assert(out@ =~= s@);
                }
                return out;
            },
        }
    }
}

} // verus!
