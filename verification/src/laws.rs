use vstd::prelude::*;

use crate::bitmaps::bitmap_subset;
use crate::bitmaps::spec_projection;
use crate::db::CollectionView;
use crate::db::DbView;
use crate::db::Distance;
use crate::db::SimilarityResult;
use crate::db::admit_of;
use crate::db::is_top_k;
use crate::db::results_match;
use crate::metadata::MetaVal;
use crate::similarity::prefers;
use crate::metadata::meta_has_key;

verus! {

/// Law: in a well-formed store, every record's vector has its collection's
/// dimension and every record's bitmap has one bit per declared field.
pub proof fn lemma_wf_lengths(db: DbView)
    requires
        db.wf(),
    ensures
        forall|i: int, k: int|
            0 <= i < db.collections.len() && 0 <= k < db.collections[i].embeddings.len() ==> (
            #[trigger] db.collections[i].embeddings[k]).vector.len()
                == db.collections[i].dimension && db.collections[i].embeddings[k].bitmap.len()
                == db.collections[i].metadata_fields.len(),
{
    assert forall|i: int, k: int|
        0 <= i < db.collections.len() && 0 <= k < db.collections[i].embeddings.len() implies (
    #[trigger] db.collections[i].embeddings[k]).vector.len() == db.collections[i].dimension
        && db.collections[i].embeddings[k].bitmap.len()
        == db.collections[i].metadata_fields.len() by {
        assert(db.collections[i].wf());
        assert(db.collections[i].embeddings[k].wf(
            db.collections[i].dimension,
            db.collections[i].metadata_fields,
        ));
    }
}

/// Law: ids issued by insertions strictly increase within a process. An
/// insertion returns the counter's value and leaves the counter strictly
/// larger, and no operation ever decreases it; so an id issued later is
/// strictly greater than any id issued earlier.
pub proof fn lemma_issued_ids_strictly_increase(
    db0: DbView,
    db1: DbView,
    db2: DbView,
    id1: u64,
    id2: u64,
)
    requires
        id1 == db0.next_id,
        db1.next_id > id1,
        db2.next_id >= db1.next_id,
        id2 == db2.next_id,
    ensures
        id2 > id1,
{
}

/// Law: a fresh id differs from every id already stored, so ids stay
/// unique across the whole store.
pub proof fn lemma_fresh_id_unused(db: DbView)
    requires
        db.wf(),
    ensures
        forall|i: int, k: int|
            0 <= i < db.collections.len() && 0 <= k < db.collections[i].embeddings.len() ==> (
            #[trigger] db.collections[i].embeddings[k]).id != db.next_id,
{
}

/// Law: asking for zero results returns none.
pub proof fn lemma_k_zero(
    metric: Distance,
    scores: Seq<u32>,
    c: CollectionView,
    filt: Option<Seq<bool>>,
    sel: Seq<int>,
)
    requires
        is_top_k(metric, scores, c, filt, 0, sel),
    ensures
        sel.len() == 0,
{
}

/// Law: searching an empty collection returns an empty list.
pub proof fn lemma_empty_collection(
    metric: Distance,
    scores: Seq<u32>,
    c: CollectionView,
    filt: Option<Seq<bool>>,
    k: int,
    sel: Seq<int>,
)
    requires
        is_top_k(metric, scores, c, filt, k, sel),
        scores.len() == 0,
    ensures
        sel.len() == 0,
{
}

/// Law: asking for more results than the collection holds returns every
/// record that survives the filter.
pub proof fn lemma_k_beyond_collection(
    metric: Distance,
    scores: Seq<u32>,
    c: CollectionView,
    filt: Option<Seq<bool>>,
    k: int,
    sel: Seq<int>,
)
    requires
        is_top_k(metric, scores, c, filt, k, sel),
        k > scores.len(),
    ensures
        forall|j: int| 0 <= j < scores.len() && admit_of(c, filt, j) ==> sel.contains(j),
{
}

/// Law: the filter projected from an empty object admits every record of
/// a well-formed collection: no bit of it is set, and the lengths agree.
pub proof fn lemma_empty_object_filter_admits_all(c: CollectionView, j: int)
    requires
        c.wf(),
        0 <= j < c.embeddings.len(),
    ensures
        admit_of(
            c,
            Some(
                spec_projection(
                    Some(Seq::<(Seq<char>, MetaVal)>::empty()),
                    c.metadata_fields,
                ),
            ),
            j,
        ),
{
    let filt = spec_projection(
        Some(Seq::<(Seq<char>, MetaVal)>::empty()),
        c.metadata_fields,
    );
    assert(c.embeddings[j].wf(c.dimension, c.metadata_fields));
    assert forall|b: int| 0 <= b < filt.len() implies !filt[b] by {
        assert(!meta_has_key(
            Some(Seq::<(Seq<char>, MetaVal)>::empty()),
            c.metadata_fields[b],
        ));
    }
    assert(bitmap_subset(c.embeddings[j].bitmap, filt));
}

/// A retained selection never repeats a position: the retention order is
/// strict.
proof fn lemma_top_k_no_duplicates(
    metric: Distance,
    scores: Seq<u32>,
    c: CollectionView,
    filt: Option<Seq<bool>>,
    k: int,
    sel: Seq<int>,
)
    requires
        is_top_k(metric, scores, c, filt, k, sel),
    ensures
        sel.no_duplicates(),
{
    assert forall|m1: int, m2: int|
        0 <= m1 < sel.len() && 0 <= m2 < sel.len() && m1 != m2 implies sel[m1] != sel[m2] by {
        if m1 < m2 {
            assert(prefers(metric, scores, sel[m1], sel[m2]));
        } else {
            assert(prefers(metric, scores, sel[m2], sel[m1]));
        }
    }
}

/// Two sequences strictly ordered by the same retention order, holding
/// the same positions, are the same sequence.
proof fn lemma_same_members_same_order(
    metric: Distance,
    scores: Seq<u32>,
    a: Seq<int>,
    b: Seq<int>,
)
    requires
        forall|m1: int, m2: int| 0 <= m1 < m2 < a.len() ==> prefers(metric, scores, a[m1], a[m2]),
        forall|m1: int, m2: int| 0 <= m1 < m2 < b.len() ==> prefers(metric, scores, b[m1], b[m2]),
        forall|x: int| a.contains(x) <==> b.contains(x),
    ensures
        a == b,
    decreases a.len(),
{
    if a.len() == 0 {
        if b.len() > 0 {
            assert(b.contains(b[0]));
            assert(a.contains(b[0]));
        }
        assert(a =~= b);
    } else {
        assert(a.contains(a[0]));
        assert(b.contains(a[0]));
        let mb = choose|m: int| 0 <= m < b.len() && b[m] == a[0];
        assert(b.contains(b[0]));
        assert(a.contains(b[0]));
        let ma = choose|m: int| 0 <= m < a.len() && a[m] == b[0];
        assert(a[0] == b[0]) by {
            if mb > 0 && ma > 0 {
                assert(prefers(metric, scores, b[0], b[mb]));
                assert(prefers(metric, scores, a[0], a[ma]));
            }
        }
        let a2 = a.subrange(1, a.len() as int);
        let b2 = b.subrange(1, b.len() as int);
        assert forall|x: int| a2.contains(x) <==> b2.contains(x) by {
            assert(a2.contains(x) ==> b2.contains(x)) by {
                if a2.contains(x) {
                    let m = choose|m: int| 0 <= m < a2.len() && a2[m] == x;
                    assert(a[m + 1] == x);
                    assert(prefers(metric, scores, a[0], a[m + 1]));
                    assert(x != b[0]);
                    assert(a.contains(x));
                    assert(b.contains(x));
                    let m2 = choose|m2: int| 0 <= m2 < b.len() && b[m2] == x;
                    assert(b2[m2 - 1] == x);
                    assert(b2.contains(b2[m2 - 1]));
                }
            }
            assert(b2.contains(x) ==> a2.contains(x)) by {
                if b2.contains(x) {
                    let m = choose|m: int| 0 <= m < b2.len() && b2[m] == x;
                    assert(b[m + 1] == x);
                    assert(prefers(metric, scores, b[0], b[m + 1]));
                    assert(x != a[0]);
                    assert(b.contains(x));
                    assert(a.contains(x));
                    let m2 = choose|m2: int| 0 <= m2 < a.len() && a[m2] == x;
                    assert(a2[m2 - 1] == x);
                    assert(a2.contains(a2[m2 - 1]));
                }
            }
        }
        lemma_same_members_same_order(metric, scores, a2, b2);
        assert(a.len() == b.len());
        assert forall|i: int| 0 <= i < a.len() implies a[i] == b[i] by {
            if i > 0 {
                assert(a2[i - 1] == b2[i - 1]);
            }
        }
        assert(a =~= b);
    }
}

/// Law: the retained selection is deterministic. Any two selections that
/// both satisfy the top-k characterization for the same metric, scores,
/// filter and bound are equal, so identical inputs always produce the
/// identical ranked result.
pub proof fn lemma_top_k_deterministic(
    metric: Distance,
    scores: Seq<u32>,
    c: CollectionView,
    filt: Option<Seq<bool>>,
    k: int,
    sel1: Seq<int>,
    sel2: Seq<int>,
)
    requires
        is_top_k(metric, scores, c, filt, k, sel1),
        is_top_k(metric, scores, c, filt, k, sel2),
    ensures
        sel1 == sel2,
{
    lemma_top_k_no_duplicates(metric, scores, c, filt, k, sel1);
    lemma_top_k_no_duplicates(metric, scores, c, filt, k, sel2);
    assert forall|x: int| sel1.contains(x) implies sel2.contains(x) by {
        lemma_top_k_member_transfer(metric, scores, c, filt, k, sel1, sel2, x);
    }
    assert forall|x: int| sel2.contains(x) implies sel1.contains(x) by {
        lemma_top_k_member_transfer(metric, scores, c, filt, k, sel2, sel1, x);
    }
    lemma_same_members_same_order(metric, scores, sel1, sel2);
}

/// Whatever one valid selection retains, any other valid selection for
/// the same query retains too.
proof fn lemma_top_k_member_transfer(
    metric: Distance,
    scores: Seq<u32>,
    c: CollectionView,
    filt: Option<Seq<bool>>,
    k: int,
    sel1: Seq<int>,
    sel2: Seq<int>,
    x: int,
)
    requires
        is_top_k(metric, scores, c, filt, k, sel1),
        is_top_k(metric, scores, c, filt, k, sel2),
        sel1.contains(x),
    ensures
        sel2.contains(x),
{
    lemma_top_k_no_duplicates(metric, scores, c, filt, k, sel1);
    lemma_top_k_no_duplicates(metric, scores, c, filt, k, sel2);
    if !sel2.contains(x) {
        let mx = choose|m: int| 0 <= m < sel1.len() && sel1[m] == x;
        assert(0 <= x < scores.len() && admit_of(c, filt, x));
        if sel2.len() < k {
            assert(sel2.contains(x));
        } else {
            assert forall|y: int| sel2.contains(y) implies sel1.contains(y) by {
                if !sel1.contains(y) {
                    let my = choose|m: int| 0 <= m < sel2.len() && sel2[m] == y;
                    assert(0 <= y < scores.len() && admit_of(c, filt, y));
                    assert(prefers(metric, scores, sel1[mx], y));
                    assert(prefers(metric, scores, sel2[my], x));
                    assert(false);
                }
            }
            assert(sel2.to_set().subset_of(sel1.to_set()));
            sel1.unique_seq_to_set();
            sel2.unique_seq_to_set();
            vstd::set_lib::lemma_len_subset(sel2.to_set(), sel1.to_set());
            vstd::set_lib::lemma_subset_equality(sel2.to_set(), sel1.to_set());
            assert(sel1.to_set().contains(x));
            assert(sel2.to_set().contains(x));
        }
    }
}

/// Law: a search never shows a stale record. Every hit copies a record
/// stored at query time, and ids are unique, so a hit that carries a
/// given id carries exactly the record stored under that id; after an
/// update, the values before the update are no longer observable.
pub proof fn lemma_search_observes_current(
    metric: Distance,
    scores: Seq<u32>,
    c: CollectionView,
    filt: Option<Seq<bool>>,
    k: int,
    sel: Seq<int>,
    r: Seq<SimilarityResult>,
    pos: int,
)
    requires
        c.wf(),
        0 <= pos < c.embeddings.len(),
        is_top_k(metric, scores, c, filt, k, sel),
        results_match(r, sel, c, scores),
        scores.len() == c.embeddings.len(),
    ensures
        forall|m: int|
            0 <= m < r.len() && (#[trigger] r[m]).embedding@.id == c.embeddings[pos].id ==> r[
                m
            ].embedding@ == c.embeddings[pos],
{
    assert forall|m: int|
        0 <= m < r.len() && (#[trigger] r[m]).embedding@.id == c.embeddings[pos].id implies r[
        m
    ].embedding@ == c.embeddings[pos] by {
        let j = sel[m];
        assert(r[m].embedding@ == c.embeddings[j]);
        if j < pos {
            assert(c.embeddings[j].id != c.embeddings[pos].id);
        } else if pos < j {
            assert(c.embeddings[pos].id != c.embeddings[j].id);
        }
    }
}

} // verus!
