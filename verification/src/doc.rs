//! The document under construction, held as vectors of key/value entries
//! with pairwise-distinct keys, and viewed as the model's maps.
use vstd::prelude::*;
use vstd::map::*;

use crate::model::{ArrItem, JsonVal};

verus! {

/// An element of an array value.
pub enum ArrElem {
    Str(Vec<char>),
    Obj(Vec<(Vec<char>, Vec<char>)>),
}

/// A top-level value: a string, an array, or a one-level object.
pub enum DocValue {
    Str(Vec<char>),
    Arr(Vec<ArrElem>),
    Obj(Vec<(Vec<char>, Vec<char>)>),
}

/// The fields of a one-level object, as the map they denote. Later entries
/// win, as repeated insertion would.
pub open spec fn pairs_map(s: Seq<(Vec<char>, Vec<char>)>) -> Map<Seq<char>, Seq<char>>
    decreases s.len(),
{
    if s.len() == 0 {
        Map::empty()
    } else {
        pairs_map(s.drop_last()).insert(s.last().0@, s.last().1@)
    }
}

pub open spec fn ae_view(e: ArrElem) -> ArrItem {
    match e {
        ArrElem::Str(v) => ArrItem::Str(v@),
        ArrElem::Obj(ps) => ArrItem::Obj(pairs_map(ps@)),
    }
}

pub open spec fn dv_view(v: DocValue) -> JsonVal {
    match v {
        DocValue::Str(s) => JsonVal::Str(s@),
        DocValue::Arr(items) => JsonVal::Arr(items@.map_values(|e: ArrElem| ae_view(e))),
        DocValue::Obj(ps) => JsonVal::Obj(pairs_map(ps@)),
    }
}

/// The top-level entries, as the document map they denote.
pub open spec fn entries_map(s: Seq<(Vec<char>, DocValue)>) -> Map<Seq<char>, JsonVal>
    decreases s.len(),
{
    if s.len() == 0 {
        Map::empty()
    } else {
        entries_map(s.drop_last()).insert(s.last().0@, dv_view(s.last().1))
    }
}

pub open spec fn uniq_pairs(s: Seq<(Vec<char>, Vec<char>)>) -> bool {
    forall|i: int, j: int| 0 <= i < j < s.len() ==> s[i].0@ != s[j].0@
}

pub open spec fn uniq_entries(s: Seq<(Vec<char>, DocValue)>) -> bool {
    forall|i: int, j: int| 0 <= i < j < s.len() ==> s[i].0@ != s[j].0@
}

pub open spec fn wf_elem(e: ArrElem) -> bool {
    match e {
        ArrElem::Str(_) => true,
        ArrElem::Obj(ps) => uniq_pairs(ps@),
    }
}

/// Arrays only arise by promoting one existing value and appending strings:
/// they hold at least two elements and only the first may be an object.
pub open spec fn wf_arr(items: Seq<ArrElem>) -> bool {
    &&& items.len() >= 2
    &&& forall|i: int| 1 <= i < items.len() ==> items[i] is Str
    &&& forall|i: int| 0 <= i < items.len() ==> wf_elem(#[trigger] items[i])
}

/// Object fields come from repeated overwriting insertion, so their keys are
/// pairwise distinct.
pub open spec fn wf_value(v: DocValue) -> bool {
    match v {
        DocValue::Str(_) => true,
        DocValue::Arr(items) => wf_arr(items@),
        DocValue::Obj(ps) => uniq_pairs(ps@),
    }
}

pub open spec fn wf_entries(s: Seq<(Vec<char>, DocValue)>) -> bool {
    forall|i: int| 0 <= i < s.len() ==> wf_value(#[trigger] s[i].1)
}

pub proof fn lemma_pairs_map_dom(s: Seq<(Vec<char>, Vec<char>)>)
    ensures
        forall|k: Seq<char>|
            #[trigger] pairs_map(s).dom().contains(k) <==> exists|i: int|
                0 <= i < s.len() && #[trigger] s[i].0@ == k,
    decreases s.len(),
{
    if s.len() > 0 {
        let d = s.drop_last();
        lemma_pairs_map_dom(d);
        assert forall|k: Seq<char>| #[trigger] pairs_map(s).dom().contains(k) implies exists|i: int|
            0 <= i < s.len() && #[trigger] s[i].0@ == k by {
            if k == s.last().0@ {
                assert(s[s.len() - 1].0@ == k);
            } else {
                assert(pairs_map(d).dom().contains(k));
                let i = choose|i: int| 0 <= i < d.len() && #[trigger] d[i].0@ == k;
                assert(s[i].0@ == k);
            }
        }
        assert forall|k: Seq<char>|
            (exists|i: int| 0 <= i < s.len() && #[trigger] s[i].0@ == k) implies #[trigger] pairs_map(
            s,
        ).dom().contains(k) by {
            let i = choose|i: int| 0 <= i < s.len() && #[trigger] s[i].0@ == k;
            if i < s.len() - 1 {
                assert(d[i].0@ == k);
                assert(pairs_map(d).dom().contains(k));
            }
        }
    }
}

pub proof fn lemma_entries_map_dom(s: Seq<(Vec<char>, DocValue)>)
    ensures
        forall|k: Seq<char>|
            #[trigger] entries_map(s).dom().contains(k) <==> exists|i: int|
                0 <= i < s.len() && #[trigger] s[i].0@ == k,
    decreases s.len(),
{
    if s.len() > 0 {
        let d = s.drop_last();
        lemma_entries_map_dom(d);
        assert forall|k: Seq<char>| #[trigger] entries_map(s).dom().contains(k) implies exists|i: int|
            0 <= i < s.len() && #[trigger] s[i].0@ == k by {
            if k == s.last().0@ {
                assert(s[s.len() - 1].0@ == k);
            } else {
                assert(entries_map(d).dom().contains(k));
                let i = choose|i: int| 0 <= i < d.len() && #[trigger] d[i].0@ == k;
                assert(s[i].0@ == k);
            }
        }
        assert forall|k: Seq<char>|
            (exists|i: int| 0 <= i < s.len() && #[trigger] s[i].0@ == k) implies #[trigger] entries_map(
            s,
        ).dom().contains(k) by {
            let i = choose|i: int| 0 <= i < s.len() && #[trigger] s[i].0@ == k;
            if i < s.len() - 1 {
                assert(d[i].0@ == k);
                assert(entries_map(d).dom().contains(k));
            }
        }
    }
}

pub proof fn lemma_entries_map_get(s: Seq<(Vec<char>, DocValue)>, i: int)
    requires
        uniq_entries(s),
        0 <= i < s.len(),
    ensures
        entries_map(s).dom().contains(s[i].0@),
        entries_map(s)[s[i].0@] == dv_view(s[i].1),
    decreases s.len(),
{
    lemma_entries_map_dom(s);
    if i < s.len() - 1 {
        assert(uniq_entries(s.drop_last())) by {
            assert(forall|a: int, b: int|
                0 <= a < b < s.len() - 1 ==> s.drop_last()[a].0@ == s[a].0@ && s.drop_last()[b].0@
                    == s[b].0@);
        }
        lemma_entries_map_get(s.drop_last(), i);
        assert(s.drop_last()[i].0@ == s[i].0@ && s.drop_last()[i].1 == s[i].1);
        assert(s[i].0@ != s.last().0@);
    }
}

/// Removing the entry at `i` removes exactly its key from the denoted map.
pub proof fn lemma_entries_map_remove(s: Seq<(Vec<char>, DocValue)>, i: int)
    requires
        uniq_entries(s),
        0 <= i < s.len(),
    ensures
        entries_map(s.remove(i)) == entries_map(s).remove(s[i].0@),
    decreases s.len(),
{
    lemma_entries_map_dom(s.drop_last());
    if i == s.len() - 1 {
        assert(s.remove(i) =~= s.drop_last());
        assert(forall|j: int| 0 <= j < s.len() - 1 ==> s[j].0@ != s[i].0@);
        assert(!entries_map(s.drop_last()).dom().contains(s[i].0@));
        assert(entries_map(s.drop_last()).insert(s.last().0@, dv_view(s.last().1)).remove(s[i].0@)
            =~= entries_map(s.drop_last()));
    } else {
        assert(uniq_entries(s.drop_last())) by {
            assert(forall|a: int, b: int|
                0 <= a < b < s.len() - 1 ==> s.drop_last()[a].0@ == s[a].0@ && s.drop_last()[b].0@
                    == s[b].0@);
        }
        lemma_entries_map_remove(s.drop_last(), i);
        assert(s.remove(i).drop_last() =~= s.drop_last().remove(i));
        assert(s.remove(i).last() == s.last());
        assert(entries_map(s.remove(i)) == entries_map(s.drop_last().remove(i)).insert(
            s.last().0@,
            dv_view(s.last().1),
        ));
        assert(s[i].0@ != s.last().0@);
        assert(entries_map(s.drop_last()).remove(s[i].0@).insert(s.last().0@, dv_view(s.last().1))
            =~= entries_map(s.drop_last()).insert(s.last().0@, dv_view(s.last().1)).remove(
            s[i].0@,
        ));
    }
}

pub proof fn lemma_pairs_map_remove(s: Seq<(Vec<char>, Vec<char>)>, i: int)
    requires
        uniq_pairs(s),
        0 <= i < s.len(),
    ensures
        pairs_map(s.remove(i)) == pairs_map(s).remove(s[i].0@),
    decreases s.len(),
{
    lemma_pairs_map_dom(s.drop_last());
    if i == s.len() - 1 {
        assert(s.remove(i) =~= s.drop_last());
        assert(forall|j: int| 0 <= j < s.len() - 1 ==> s[j].0@ != s[i].0@);
        assert(!pairs_map(s.drop_last()).dom().contains(s[i].0@));
        assert(pairs_map(s.drop_last()).insert(s.last().0@, s.last().1@).remove(s[i].0@)
            =~= pairs_map(s.drop_last()));
    } else {
        assert(uniq_pairs(s.drop_last())) by {
            assert(forall|a: int, b: int|
                0 <= a < b < s.len() - 1 ==> s.drop_last()[a].0@ == s[a].0@ && s.drop_last()[b].0@
                    == s[b].0@);
        }
        lemma_pairs_map_remove(s.drop_last(), i);
        assert(s.remove(i).drop_last() =~= s.drop_last().remove(i));
        assert(s.remove(i).last() == s.last());
        assert(pairs_map(s.remove(i)) == pairs_map(s.drop_last().remove(i)).insert(
            s.last().0@,
            s.last().1@,
        ));
        assert(s[i].0@ != s.last().0@);
        assert(pairs_map(s.drop_last()).remove(s[i].0@).insert(s.last().0@, s.last().1@)
            =~= pairs_map(s.drop_last()).insert(s.last().0@, s.last().1@).remove(s[i].0@));
    }
}

} // verus!
