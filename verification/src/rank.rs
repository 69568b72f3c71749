//! The ranking policy: which items answer a query, the order results come
//! back in, and the machinery that keeps scored candidates sorted while the
//! catalog is scanned.
//!
//! With a blank query every item answers and the order is usage first,
//! name as tie-break; with a non-blank query the fuzzy score decides and
//! usage breaks ties. Scores are backend-opaque: only their order within one
//! query means anything.

use vstd::prelude::*;
use crate::model::ItemModel;
use crate::model::ResultModel;
use crate::model::SearchableItem;
use crate::model::models;
use crate::model::id_of;
use crate::model::name_of;
use crate::model::usage_of;
use crate::model::type_str_of;
use crate::model::path_opt_of;
use crate::fuzzy::fuzzy_score;
use crate::strcmp::lex_le;
use crate::strcmp::lemma_lex_le_total;
use crate::strcmp::lemma_lex_le_trans;
use crate::strcmp::str_le;

verus! {

/// How many results a search returns at most.
pub const RESULT_LIMIT: usize = 20;

/// Whether an item answers the (already trimmed) query: a blank query is
/// answered by every item, any other query by the items the fuzzy backend
/// scores.
pub open spec fn item_matches(m: ItemModel, q: Seq<char>) -> bool {
    if q.len() == 0 {
        true
    } else {
        fuzzy_score(name_of(m), q) is Some
    }
}

/// The score an answering item carries: its usage count under a blank query,
/// the backend's relevance score otherwise.
pub open spec fn score_of(m: ItemModel, q: Seq<char>) -> i64 {
    if q.len() == 0 {
        usage_of(m) as i64
    } else {
        fuzzy_score(name_of(m), q)->Some_0
    }
}

/// How many stored items answer the query.
pub open spec fn match_count(ms: Seq<ItemModel>, q: Seq<char>) -> int
    decreases ms.len(),
{
    if ms.len() == 0 {
        0
    } else {
        match_count(ms.drop_last(), q) + if item_matches(ms.last(), q) {
            1int
        } else {
            0int
        }
    }
}

/// The ranking order: higher score first; among equal scores, under a blank
/// query the name decides ascending, otherwise the usage count descending.
pub open spec fn item_before_eq(q: Seq<char>, a: ItemModel, b: ItemModel) -> bool {
    if score_of(a, q) != score_of(b, q) {
        score_of(a, q) > score_of(b, q)
    } else if q.len() == 0 {
        lex_le(name_of(a), name_of(b))
    } else {
        usage_of(a) >= usage_of(b)
    }
}

/// Any two items are ordered.
pub proof fn lemma_item_order_total(q: Seq<char>, a: ItemModel, b: ItemModel)
    ensures
        item_before_eq(q, a, b) || item_before_eq(q, b, a),
{
    if score_of(a, q) == score_of(b, q) && q.len() == 0 {
        lemma_lex_le_total(name_of(a), name_of(b));
    }
}

/// The ranking order chains.
pub proof fn lemma_item_order_trans(q: Seq<char>, a: ItemModel, b: ItemModel, c: ItemModel)
    requires
        item_before_eq(q, a, b),
        item_before_eq(q, b, c),
    ensures
        item_before_eq(q, a, c),
{
    if score_of(a, q) == score_of(b, q) && score_of(b, q) == score_of(c, q) && q.len() == 0 {
        lemma_lex_le_trans(name_of(a), name_of(b), name_of(c));
    }
}

/// The ranked answer built from an item and its score.
pub open spec fn result_for(m: ItemModel, score: i64) -> ResultModel {
    ResultModel {
        object_id: id_of(m),
        name: name_of(m),
        result_type: type_str_of(m),
        score,
        path: path_opt_of(m),
    }
}

/// A scored candidate: the position of its item in the catalog together with
/// the values ranking needs.
pub(crate) struct Cand {
    pub score: i64,
    pub usage: u32,
    pub idx: usize,
}

/// A candidate faithfully describes the item it points at.
pub(crate) open spec fn cand_wf(ms: Seq<ItemModel>, q: Seq<char>, c: Cand) -> bool {
    &&& c.idx < ms.len()
    &&& item_matches(ms[c.idx as int], q)
    &&& c.score == score_of(ms[c.idx as int], q)
    &&& c.usage == usage_of(ms[c.idx as int])
}

/// The candidates stand in ranking order.
pub(crate) open spec fn cands_sorted(ms: Seq<ItemModel>, q: Seq<char>, cs: Seq<Cand>) -> bool {
    forall|k: int, l: int|
        0 <= k <= l < cs.len() ==> item_before_eq(
            q,
            ms[(#[trigger] cs[k]).idx as int],
            ms[(#[trigger] cs[l]).idx as int],
        )
}

fn cand_before_eq(
    items: &Vec<SearchableItem>,
    blank: bool,
    Ghost(q): Ghost<Seq<char>>,
    a: &Cand,
    b: &Cand,
) -> (r: bool)
    requires
        blank == (q.len() == 0),
        cand_wf(models(items@), q, *a),
        cand_wf(models(items@), q, *b),
    ensures
        r == item_before_eq(q, models(items@)[a.idx as int], models(items@)[b.idx as int]),
{
    if a.score != b.score {
        a.score > b.score
    } else if blank {
        let na = items[a.idx].get_name();
        let nb = items[b.idx].get_name();
        str_le(na, nb)
    } else {
        a.usage >= b.usage
    }
}

fn find_insert_pos(
    items: &Vec<SearchableItem>,
    blank: bool,
    Ghost(q): Ghost<Seq<char>>,
    cands: &Vec<Cand>,
    c: &Cand,
) -> (p: usize)
    requires
        blank == (q.len() == 0),
        cand_wf(models(items@), q, *c),
        forall|k: int| 0 <= k < cands@.len() ==> cand_wf(models(items@), q, #[trigger] cands@[k]),
        cands_sorted(models(items@), q, cands@),
    ensures
        p <= cands@.len(),
        forall|k: int|
            0 <= k < p ==> item_before_eq(
                q,
                models(items@)[(#[trigger] cands@[k]).idx as int],
                models(items@)[c.idx as int],
            ),
        p < cands@.len() ==> item_before_eq(
            q,
            models(items@)[c.idx as int],
            models(items@)[cands@[p as int].idx as int],
        ),
{
    let ghost ms = models(items@);
    let n = cands.len();
    let mut p: usize = 0;
    while p < n
        invariant
            p <= n,
            n == cands@.len(),
            blank == (q.len() == 0),
            cand_wf(ms, q, *c),
            ms == models(items@),
            forall|k: int| 0 <= k < cands@.len() ==> cand_wf(ms, q, #[trigger] cands@[k]),
            forall|k: int|
                0 <= k < p ==> item_before_eq(
                    q,
                    ms[(#[trigger] cands@[k]).idx as int],
                    ms[c.idx as int],
                ),
        decreases n - p,
    {
        let before = cand_before_eq(items, blank, Ghost(q), c, &cands[p]);
        let after = cand_before_eq(items, blank, Ghost(q), &cands[p], c);
        if before && !after {
            return p;
        }
        proof {
            lemma_item_order_total(q, ms[cands@[p as int].idx as int], ms[c.idx as int]);
        }
        p = p + 1;
    }
    p
}

/// Places a new candidate so that the list stays in ranking order.
pub(crate) fn insert_cand(
    items: &Vec<SearchableItem>,
    blank: bool,
    Ghost(q): Ghost<Seq<char>>,
    cands: &mut Vec<Cand>,
    c: Cand,
)
    requires
        blank == (q.len() == 0),
        cand_wf(models(items@), q, c),
        forall|k: int|
            0 <= k < old(cands)@.len() ==> cand_wf(models(items@), q, #[trigger] old(cands)@[k]),
        cands_sorted(models(items@), q, old(cands)@),
    ensures
        exists|p: int|
            0 <= p <= old(cands)@.len() && final(cands)@ == old(cands)@.insert(p, c),
        cands_sorted(models(items@), q, final(cands)@),
{
    let ghost ms = models(items@);
    let ghost pre = cands@;
    let p = find_insert_pos(items, blank, Ghost(q), cands, &c);
    cands.insert(p, c);
    proof {
        pre.insert_ensures(p as int, c);
        assert forall|k: int, l: int| 0 <= k <= l < cands@.len() implies item_before_eq(
            q,
            ms[(#[trigger] cands@[k]).idx as int],
            ms[(#[trigger] cands@[l]).idx as int],
        ) by {
            let pi = p as int;
            if k < pi && l < pi {
                assert(cands@[k] == pre[k]);
                assert(cands@[l] == pre[l]);
            } else if k < pi && l == pi {
                assert(cands@[k] == pre[k]);
            } else if k < pi && l > pi {
                assert(cands@[k] == pre[k]);
                assert(cands@[l] == pre[l - 1]);
                if l - 1 >= pi {
                    lemma_item_order_total(q, ms[pre[k].idx as int], ms[pre[l - 1].idx as int]);
                }
            } else if k == pi && l == pi {
                lemma_item_order_total(q, ms[c.idx as int], ms[c.idx as int]);
            } else if k == pi && l > pi {
                assert(cands@[l] == pre[l - 1]);
                assert(pi < pre.len() + 1);
                assert(item_before_eq(q, ms[c.idx as int], ms[pre[pi].idx as int]));
                lemma_item_order_trans(
                    q,
                    ms[c.idx as int],
                    ms[pre[pi].idx as int],
                    ms[pre[l - 1].idx as int],
                );
            } else {
                assert(cands@[k] == pre[k - 1]);
                assert(cands@[l] == pre[l - 1]);
            }
        }
        assert(cands@ == pre.insert(p as int, c));
    }
}

} // verus!
