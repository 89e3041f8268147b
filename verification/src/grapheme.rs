//! Grapheme clusters — the unit the user believes they are editing.
//!
//! Segmentation itself is `unicode-segmentation`'s: this module takes the
//! clusters it reports and answers the two questions the engine asks of them.

use unicode_segmentation::UnicodeSegmentation;
use vstd::prelude::*;
use vstd::string::StringSliceAdditionalSpecFns;
use crate::text::at_boundary;

verus! {

/// The extended grapheme clusters of a text, as `(byte offset, byte length)`
/// pairs in order: what `unicode-segmentation` reports for it.
pub uninterp spec fn extended_clusters(text: Seq<char>) -> Seq<(usize, usize)>;

/// Clusters tile the text: each starts where the previous ended, none is
/// empty, the first starts at zero and the last ends at the end, and each
/// starts on a character boundary.
pub open spec fn tiles(bytes: Seq<u8>, spans: Seq<(usize, usize)>) -> bool {
    &&& (spans.len() == 0 <==> bytes.len() == 0)
    &&& spans.len() > 0 ==> spans[0].0 == 0
    &&& spans.len() > 0 ==> spans.last().0 + spans.last().1 == bytes.len()
    &&& forall|j: int| 0 <= j < spans.len() ==> #[trigger] spans[j].1 > 0
    &&& forall|j: int| 0 <= j < spans.len() ==> at_boundary(bytes, #[trigger] spans[j].0 as int)
    &&& forall|j: int| 0 <= j < spans.len() - 1 ==> #[trigger] spans[j + 1].0 == spans[j].0 + spans[j].1
}

/// Calls `UnicodeSegmentation::grapheme_indices(text, true)` and reports each
/// cluster by offset and length. The crate yields the clusters of the whole
/// text, in order, each a non-empty slice beginning where the previous one
/// ended; that tiling is all this states beyond naming the result.
#[verifier::external_body]
fn cluster_spans(text: &str) -> (r: Vec<(usize, usize)>)
    ensures
        r@ == extended_clusters(text@),
        tiles(text.spec_bytes(), r@),
{
    text.grapheme_indices(true).map(|(offset, cluster)| (offset, cluster.len())).collect()
}

/// Where each cluster ends.
pub open spec fn cluster_end(span: (usize, usize)) -> int {
    span.0 + span.1
}

/// How many of the leading clusters end at or before `byte`.
pub open spec fn clusters_passed(spans: Seq<(usize, usize)>, byte: int) -> nat
    decreases spans.len(),
{
    if spans.len() == 0 || cluster_end(spans[0]) > byte {
        0
    } else {
        1 + clusters_passed(spans.drop_first(), byte)
    }
}

proof fn lemma_tile_bounds(bytes: Seq<u8>, spans: Seq<(usize, usize)>)
    requires
        tiles(bytes, spans),
    ensures
        forall|j: int| 0 <= j < spans.len() ==> cluster_end(#[trigger] spans[j]) <= bytes.len(),
{
    assert forall|j: int| 0 <= j < spans.len() implies cluster_end(#[trigger] spans[j]) <= bytes.len() by {
        lemma_tile_end(bytes, spans, j);
    }
}

proof fn lemma_tile_count(bytes: Seq<u8>, spans: Seq<(usize, usize)>, j: int)
    requires
        tiles(bytes, spans),
        0 <= j < spans.len(),
    ensures
        spans[j].0 >= j,
    decreases j,
{
    if j > 0 {
        lemma_tile_count(bytes, spans, j - 1);
        let i = j - 1;
        assert(spans[i + 1].0 == spans[i].0 + spans[i].1);
    }
}

proof fn lemma_tile_end(bytes: Seq<u8>, spans: Seq<(usize, usize)>, j: int)
    requires
        tiles(bytes, spans),
        0 <= j < spans.len(),
    ensures
        cluster_end(spans[j]) <= bytes.len(),
    decreases spans.len() - j,
{
    if j < spans.len() - 1 {
        lemma_tile_end(bytes, spans, j + 1);
        assert(spans[j + 1].0 == spans[j].0 + spans[j].1);
    }
}

/// Byte offsets of every grapheme-cluster boundary, including `0` and the
/// length of the text.
pub fn boundaries(text: &str) -> (r: Vec<usize>)
    ensures
        r@.len() == extended_clusters(text@).len() + 1,
        r@[0] == 0,
        forall|j: int| 0 <= j < extended_clusters(text@).len()
            ==> r@[j + 1] == cluster_end(#[trigger] extended_clusters(text@)[j]),
{
    let _n = crate::text::str_len(text);
    let spans = cluster_spans(text);
    proof { lemma_tile_bounds(text.spec_bytes(), spans@); }
    let mut offsets: Vec<usize> = Vec::new();
    offsets.push(0);
    let mut i: usize = 0;
    while i < spans.len()
        invariant
            i <= spans@.len(),
            spans@ == extended_clusters(text@),
            _n == text.spec_bytes().len(),
            forall|j: int| 0 <= j < spans@.len() ==> cluster_end(#[trigger] spans@[j]) <= text.spec_bytes().len(),
            offsets@.len() == i + 1,
            offsets@[0] == 0,
            forall|j: int| 0 <= j < i ==> offsets@[j + 1] == cluster_end(#[trigger] spans@[j]),
        decreases spans.len() - i,
    {
        let (offset, len) = spans[i];
        assert(cluster_end(spans@[i as int]) <= text.spec_bytes().len());
        offsets.push(offset + len);
        i += 1;
    }
    offsets
}

/// How many grapheme clusters precede `byte` within `line`: a byte inside a
/// cluster counts that cluster as not yet passed.
pub fn column(line: &str, byte: usize) -> (n: usize)
    ensures
        n == clusters_passed(extended_clusters(line@), byte as int),
        n == ends_by(extended_clusters(line@), byte as int),
        n <= line.spec_bytes().len(),
{
    let _n = crate::text::str_len(line);
    let spans = cluster_spans(line);
    proof {
        lemma_tile_bounds(line.spec_bytes(), spans@);
        assert(spans@.skip(0) == spans@);
    }
    let mut i: usize = 0;
    while i < spans.len() && spans[i].0 + spans[i].1 <= byte
        invariant
            i <= spans@.len(),
            spans@ == extended_clusters(line@),
            _n == line.spec_bytes().len(),
            forall|j: int| 0 <= j < spans@.len() ==> cluster_end(#[trigger] spans@[j]) <= line.spec_bytes().len(),
            clusters_passed(spans@, byte as int) == i + clusters_passed(spans@.skip(i as int), byte as int),
        decreases spans.len() - i,
    {
        assert(spans@.skip(i as int)[0] == spans@[i as int]);
        assert(spans@.skip(i as int).drop_first() == spans@.skip(i + 1));
        i += 1;
    }
    proof {
        if i < spans@.len() {
            assert(spans@.skip(i as int)[0] == spans@[i as int]);
        }
        if spans@.len() > 0 {
            lemma_tile_count(line.spec_bytes(), spans@, spans@.len() - 1);
        }
        column_counts_cluster_ends(line.spec_bytes(), spans@, byte as int);
    }
    i
}


/// Clusters in a row: none empty, each starting where the one before ended.
pub open spec fn chained(spans: Seq<(usize, usize)>) -> bool {
    &&& forall|j: int| 0 <= j < spans.len() ==> #[trigger] spans[j].1 > 0
    &&& forall|j: int| 0 < j < spans.len() ==> #[trigger] spans[j].0 == spans[j - 1].0 + spans[j - 1].1
}

/// How many clusters end at or before `byte`.
pub open spec fn ends_by(spans: Seq<(usize, usize)>, byte: int) -> nat
    decreases spans.len(),
{
    if spans.len() == 0 {
        0
    } else {
        ends_by(spans.drop_first(), byte) + if cluster_end(spans[0]) <= byte { 1nat } else { 0nat }
    }
}

proof fn lemma_chained_rest(spans: Seq<(usize, usize)>)
    requires
        chained(spans),
        spans.len() > 0,
    ensures
        chained(spans.drop_first()),
{
    let r = spans.drop_first();
    assert forall|j: int| 0 <= j < r.len() implies #[trigger] r[j].1 > 0 by {
        assert(r[j] == spans[j + 1]);
    }
    assert forall|j: int| 0 < j < r.len() implies #[trigger] r[j].0 == r[j - 1].0 + r[j - 1].1 by {
        assert(r[j] == spans[j + 1] && r[j - 1] == spans[j]);
    }
}

/// Once one cluster ends past `byte`, so do all after it.
proof fn lemma_none_after(spans: Seq<(usize, usize)>, byte: int)
    requires
        chained(spans),
        spans.len() > 0,
        cluster_end(spans[0]) > byte,
    ensures
        ends_by(spans, byte) == 0,
    decreases spans.len(),
{
    if spans.len() > 1 {
        lemma_chained_rest(spans);
        assert(spans[1].1 > 0);
        assert(spans[1].0 == spans[0].0 + spans[0].1);
        assert(spans.drop_first()[0] == spans[1]);
        lemma_none_after(spans.drop_first(), byte);
    } else {
        assert(spans.drop_first().len() == 0);
        assert(ends_by(spans.drop_first(), byte) == 0);
    }
    assert(ends_by(spans, byte) == ends_by(spans.drop_first(), byte) + 0);
}

proof fn lemma_passed_counts_ends(spans: Seq<(usize, usize)>, byte: int)
    requires
        chained(spans),
    ensures
        clusters_passed(spans, byte) == ends_by(spans, byte),
    decreases spans.len(),
{
    if spans.len() > 0 {
        if cluster_end(spans[0]) > byte {
            lemma_none_after(spans, byte);
        } else {
            lemma_chained_rest(spans);
            lemma_passed_counts_ends(spans.drop_first(), byte);
        }
    }
}

/// A column counts the clusters that end at or before the byte: a cluster
/// counts only once the byte has passed its end.
pub proof fn column_counts_cluster_ends(bytes: Seq<u8>, spans: Seq<(usize, usize)>, byte: int)
    requires
        tiles(bytes, spans),
    ensures
        clusters_passed(spans, byte) == ends_by(spans, byte),
{
    assert forall|j: int| 0 < j < spans.len() implies #[trigger] spans[j].0 == spans[j - 1].0 + spans[j - 1].1 by {
        let i = j - 1;
        assert(0 <= i < spans.len() - 1);
        assert(spans[i + 1].0 == spans[i].0 + spans[i].1);
    }
    lemma_passed_counts_ends(spans, byte);
}

} // verus!
