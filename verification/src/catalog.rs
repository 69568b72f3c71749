//! The catalog: the single owned collection of searchable items, with
//! upsert, delete, usage-recording, listing, reset, ranked search, and the
//! snapshot round trip. Every stored item has a unique id whose namespace
//! prefix names its variant; every operation keeps that invariant.

use vstd::prelude::*;
use crate::model::SearchableItem;
use crate::model::Application;
use crate::model::Command;
use crate::model::ItemModel;
use crate::model::SearchResult;
use crate::model::models;
use crate::model::id_of;
use crate::model::name_of;
use crate::model::usage_of;
use crate::model::type_str_of;
use crate::model::valid_item_id;
use crate::model::ResultModel;
use crate::model::result_models;
use crate::codec::enc_catalog;
use crate::codec::bounded_models;
use crate::codec::encode_items;
use crate::codec::decode_items;
use crate::errors::SearchError;
use crate::fuzzy::skim_fuzzy_match;
use crate::rank::RESULT_LIMIT;
use crate::rank::Cand;
use crate::rank::cand_wf;
use crate::rank::cands_sorted;
use crate::rank::insert_cand;
use crate::rank::item_before_eq;
use crate::rank::item_matches;
use crate::rank::match_count;
use crate::rank::result_for;
use crate::rank::score_of;
use crate::strcmp::trim_spec;
use crate::strcmp::trim_blanks;

verus! {

/// Greatest value a stored usage counter can take.
pub const USAGE_MAX: u32 = 0xffff_ffff;

/// The identity invariant: ids are unique across the catalog and each id's
/// namespace prefix matches its item's variant.
pub open spec fn catalog_inv(ms: Seq<ItemModel>) -> bool {
    &&& forall|i: int, j: int|
        0 <= i < j < ms.len() ==> id_of(#[trigger] ms[i]) != id_of(#[trigger] ms[j])
    &&& forall|i: int| 0 <= i < ms.len() ==> valid_item_id(#[trigger] ms[i])
}

/// Some stored item carries this id.
pub open spec fn contains_id(ms: Seq<ItemModel>, id: Seq<char>) -> bool {
    exists|i: int| 0 <= i < ms.len() && id_of(#[trigger] ms[i]) == id
}

/// The position of the first item carrying this id.
pub open spec fn idx_of_id(ms: Seq<ItemModel>, id: Seq<char>) -> int
    decreases ms.len(),
{
    if ms.len() == 0 {
        0
    } else if id_of(ms[0]) == id {
        0
    } else {
        1 + idx_of_id(ms.drop_first(), id)
    }
}

/// The stored item carrying this id.
pub open spec fn item_at_id(ms: Seq<ItemModel>, id: Seq<char>) -> ItemModel {
    ms[idx_of_id(ms, id)]
}

/// When an id is present, its index is in range and finds it.
pub proof fn lemma_idx_of_id_in(ms: Seq<ItemModel>, id: Seq<char>)
    requires
        contains_id(ms, id),
    ensures
        0 <= idx_of_id(ms, id) < ms.len(),
        id_of(item_at_id(ms, id)) == id,
    decreases ms.len(),
{
    if ms.len() > 0 && id_of(ms[0]) != id {
        let t = ms.drop_first();
        assert(contains_id(t, id)) by {
            let i = choose|i: int| 0 <= i < ms.len() && id_of(#[trigger] ms[i]) == id;
            assert(t[i - 1] == ms[i]);
        }
        lemma_idx_of_id_in(t, id);
    }
}

/// Under the identity invariant the carrier of an id is unique.
pub proof fn lemma_idx_of_id_unique(ms: Seq<ItemModel>, id: Seq<char>, i: int)
    requires
        catalog_inv(ms),
        0 <= i < ms.len(),
        id_of(ms[i]) == id,
    ensures
        contains_id(ms, id),
        idx_of_id(ms, id) == i,
        item_at_id(ms, id) == ms[i],
{
    assert(contains_id(ms, id));
    lemma_idx_of_id_in(ms, id);
    let j = idx_of_id(ms, id);
    if i != j {
        assert(id_of(ms[i]) == id_of(ms[j]));
        assert(false);
    }
}

/// The catalog without any item carrying the given id, order kept.
pub open spec fn remove_id(ms: Seq<ItemModel>, id: Seq<char>) -> Seq<ItemModel>
    decreases ms.len(),
{
    if ms.len() == 0 {
        Seq::empty()
    } else if id_of(ms[0]) == id {
        remove_id(ms.drop_first(), id)
    } else {
        seq![ms[0]] + remove_id(ms.drop_first(), id)
    }
}

/// What an upsert leaves stored: the old carrier of the id removed, the new
/// item appended.
pub open spec fn upsert_spec(ms: Seq<ItemModel>, m: ItemModel) -> Seq<ItemModel> {
    remove_id(ms, id_of(m)).push(m)
}

/// What one usage-recording leaves stored: the counter of the id's item
/// bumped, everything else untouched.
pub open spec fn record_spec(ms: Seq<ItemModel>, id: Seq<char>) -> Seq<ItemModel> {
    ms.update(idx_of_id(ms, id), bump_usage(item_at_id(ms, id)))
}

/// What `n` usage-recordings in a row leave stored.
pub open spec fn record_n(ms: Seq<ItemModel>, id: Seq<char>, n: nat) -> Seq<ItemModel>
    decreases n,
{
    if n == 0 {
        ms
    } else {
        record_spec(record_n(ms, id, (n - 1) as nat), id)
    }
}

/// Every item that removal keeps comes from the catalog, no kept item carries
/// the removed id, and items carrying other ids are all kept.
pub proof fn lemma_remove_id_props(ms: Seq<ItemModel>, id: Seq<char>)
    ensures
        remove_id(ms, id).len() <= ms.len(),
        forall|k: int|
            0 <= k < remove_id(ms, id).len() ==> (exists|i: int|
                0 <= i < ms.len() && #[trigger] remove_id(ms, id)[k] == ms[i]),
        forall|k: int| 0 <= k < remove_id(ms, id).len() ==> id_of(#[trigger] remove_id(ms, id)[k]) != id,
        forall|oid: Seq<char>|
            oid != id ==> (#[trigger] contains_id(remove_id(ms, id), oid) <==> contains_id(ms, oid)),
        catalog_inv(ms) ==> catalog_inv(remove_id(ms, id)),
        !contains_id(ms, id) ==> remove_id(ms, id) == ms,
    decreases ms.len(),
{
    let out = remove_id(ms, id);
    if ms.len() == 0 {
        assert(out =~= ms);
    } else {
        let t = ms.drop_first();
        lemma_remove_id_props(t, id);
        let tout = remove_id(t, id);
        assert(catalog_inv(ms) ==> catalog_inv(t)) by {
            if catalog_inv(ms) {
                assert forall|i: int, j: int|
                    0 <= i < j < t.len() implies id_of(#[trigger] t[i]) != id_of(
                    #[trigger] t[j],
                ) by {
                    assert(t[i] == ms[i + 1] && t[j] == ms[j + 1]);
                }
                assert(forall|i: int| 0 <= i < t.len() ==> valid_item_id(#[trigger] t[i]));
            }
        }
        assert forall|i: int| 0 <= i < t.len() implies t[i] == ms[i + 1] by {}
        if id_of(ms[0]) == id {
            assert(out == tout);
            assert(contains_id(ms, id)) by {
                assert(id_of(ms[0]) == id);
            }
            assert forall|oid: Seq<char>| oid != id implies (#[trigger] contains_id(out, oid)
                <==> contains_id(ms, oid)) by {
                if contains_id(ms, oid) {
                    let i = choose|i: int| 0 <= i < ms.len() && id_of(#[trigger] ms[i]) == oid;
                    assert(i > 0);
                    assert(t[i - 1] == ms[i]);
                    assert(contains_id(t, oid));
                }
                if contains_id(out, oid) {
                    assert(contains_id(t, oid));
                    let i = choose|i: int| 0 <= i < t.len() && id_of(#[trigger] t[i]) == oid;
                    assert(ms[i + 1] == t[i]);
                    assert(contains_id(ms, oid));
                }
            }
        } else {
            assert(out == seq![ms[0]] + tout);
            assert(out[0] == ms[0]);
            assert forall|k: int| 0 <= k < out.len() implies id_of(#[trigger] out[k]) != id by {
                if k > 0 {
                    assert(out[k] == tout[k - 1]);
                }
            }
            assert forall|k: int| 0 <= k < out.len() implies (exists|i: int|
                0 <= i < ms.len() && #[trigger] out[k] == ms[i]) by {
                if k == 0 {
                    assert(out[0] == ms[0]);
                } else {
                    assert(out[k] == tout[k - 1]);
                    let i = choose|i: int| 0 <= i < t.len() && tout[k - 1] == #[trigger] t[i];
                    assert(ms[i + 1] == t[i]);
                }
            }
            assert forall|oid: Seq<char>| oid != id implies (#[trigger] contains_id(out, oid)
                <==> contains_id(ms, oid)) by {
                if contains_id(ms, oid) {
                    let i = choose|i: int| 0 <= i < ms.len() && id_of(#[trigger] ms[i]) == oid;
                    if i == 0 {
                        assert(id_of(out[0]) == oid);
                        assert(contains_id(out, oid));
                    } else {
                        assert(t[i - 1] == ms[i]);
                        assert(contains_id(t, oid));
                        assert(contains_id(tout, oid));
                        let k = choose|k: int| 0 <= k < tout.len() && id_of(#[trigger] tout[k]) == oid;
                        assert(out[k + 1] == tout[k]);
                        assert(contains_id(out, oid));
                    }
                }
                if contains_id(out, oid) {
                    let k = choose|k: int| 0 <= k < out.len() && id_of(#[trigger] out[k]) == oid;
                    if k == 0 {
                        assert(out[0] == ms[0]);
                        assert(contains_id(ms, oid));
                    } else {
                        assert(out[k] == tout[k - 1]);
                        assert(contains_id(tout, oid));
                        assert(contains_id(t, oid));
                        let i = choose|i: int| 0 <= i < t.len() && id_of(#[trigger] t[i]) == oid;
                        assert(ms[i + 1] == t[i]);
                        assert(contains_id(ms, oid));
                    }
                }
            }
            if catalog_inv(ms) {
                assert forall|k: int, l: int|
                    0 <= k < l < out.len() implies id_of(#[trigger] out[k]) != id_of(
                    #[trigger] out[l],
                ) by {
                    if k == 0 {
                        assert(out[l] == tout[l - 1]);
                        assert(id_of(out[l]) != id_of(ms[0]) || false) by {
                            if id_of(tout[l - 1]) == id_of(ms[0]) {
                                let i = choose|i: int|
                                    0 <= i < t.len() && tout[l - 1] == #[trigger] t[i];
                                assert(ms[i + 1] == t[i]);
                                assert(id_of(ms[i + 1]) == id_of(ms[0]));
                                assert(false);
                            }
                        }
                    } else {
                        assert(out[k] == tout[k - 1]);
                        assert(out[l] == tout[l - 1]);
                    }
                }
                assert forall|k: int| 0 <= k < out.len() implies valid_item_id(
                    #[trigger] out[k],
                ) by {
                    let i = choose|i: int| 0 <= i < ms.len() && out[k] == #[trigger] ms[i];
                }
            }
            if !contains_id(ms, id) {
                assert(!contains_id(t, id)) by {
                    if contains_id(t, id) {
                        let i = choose|i: int| 0 <= i < t.len() && id_of(#[trigger] t[i]) == id;
                        assert(ms[i + 1] == t[i]);
                    }
                }
                assert(out =~= ms) by {
                    assert(tout == t);
                }
            }
        }
    }
}

/// The counter after one more selection: it grows by one until it saturates.
pub open spec fn bump_usage(m: ItemModel) -> ItemModel {
    match m {
        ItemModel::App { id, name, path, usage } => ItemModel::App {
            id,
            name,
            path,
            usage: if usage < USAGE_MAX {
                (usage + 1) as u32
            } else {
                usage
            },
        },
        ItemModel::Cmd { id, name, extension, trigger, kind, usage } => ItemModel::Cmd {
            id,
            name,
            extension,
            trigger,
            kind,
            usage: if usage < USAGE_MAX {
                (usage + 1) as u32
            } else {
                usage
            },
        },
    }
}

pub fn usage_after_select(count: u32) -> (r: u32)
    ensures
        count < USAGE_MAX ==> r == count + 1,
        count == USAGE_MAX ==> r == count,
{
    count.saturating_add(1)
}

/// The stored id of an item.
pub fn get_id(item: &SearchableItem) -> (r: &str)
    ensures
        r@ == id_of(item@),
{
    match item {
        SearchableItem::Application(a) => a.id.as_str(),
        SearchableItem::Command(c) => c.id.as_str(),
    }
}

/// The display name of an item.
pub fn get_name(item: &SearchableItem) -> (r: &str)
    ensures
        r@ == name_of(item@),
{
    item.get_name()
}

/// The variant tag of an item as a string.
pub fn get_type_str(item: &SearchableItem) -> (r: &str)
    ensures
        r@ == type_str_of(item@),
{
    item.get_type_str()
}

/// The usage counter of an item.
pub fn get_usage_count(item: &SearchableItem) -> (r: u32)
    ensures
        r == usage_of(item@),
{
    match item {
        SearchableItem::Application(a) => a.usage_count,
        SearchableItem::Command(c) => c.usage_count,
    }
}

fn item_id(item: &SearchableItem) -> (r: &String)
    ensures
        r@ == id_of(item@),
{
    match item {
        SearchableItem::Application(a) => &a.id,
        SearchableItem::Command(c) => &c.id,
    }
}

fn bump_item(item: SearchableItem) -> (r: SearchableItem)
    ensures
        r@ == bump_usage(item@),
{
    match item {
        SearchableItem::Application(a) => {
            let r = SearchableItem::Application(
                Application {
                    id: a.id,
                    name: a.name,
                    path: a.path,
                    usage_count: usage_after_select(a.usage_count),
                },
            );
            r
        },
        SearchableItem::Command(c) => {
            let r = SearchableItem::Command(
                Command {
                    id: c.id,
                    name: c.name,
                    extension: c.extension,
                    trigger: c.trigger,
                    command_type: c.command_type,
                    usage_count: usage_after_select(c.usage_count),
                },
            );
            r
        },
    }
}

/// Decides the identity rule for a submitted item.
fn check_item_id(item: &SearchableItem) -> (r: bool)
    ensures
        r == valid_item_id(item@),
{
    proof {
        reveal_strlit("app_");
        reveal_strlit("cmd_");
    }
    let id: &str = get_id(item);
    let n = id.unicode_len();
    if n < 4 {
        return false;
    }
    let c0 = id.get_char(0);
    let c1 = id.get_char(1);
    let c2 = id.get_char(2);
    let c3 = id.get_char(3);
    let ok = match item {
        SearchableItem::Application(_) => c0 == 'a' && c1 == 'p' && c2 == 'p' && c3 == '_',
        SearchableItem::Command(_) => c0 == 'c' && c1 == 'm' && c2 == 'd' && c3 == '_',
    };
    proof {
        let want = if item@ is App {
            "app_"@
        } else {
            "cmd_"@
        };
        if ok {
            assert(id@.subrange(0, 4) =~= want);
        } else {
            assert(id@.subrange(0, 4) != want) by {
                if id@.subrange(0, 4) == want {
                    assert(id@.subrange(0, 4)[0] == id@[0]);
                    assert(id@.subrange(0, 4)[1] == id@[1]);
                    assert(id@.subrange(0, 4)[2] == id@[2]);
                    assert(id@.subrange(0, 4)[3] == id@[3]);
                }
            }
        }
    }
    ok
}

/// The catalog of searchable items. It owns the canonical collection; one
/// instance exists per data directory, created at start by loading the
/// persisted snapshot.
pub struct SearchState {
    items: Vec<SearchableItem>,
}

impl View for SearchState {
    type V = Seq<ItemModel>;

    closed spec fn view(&self) -> Seq<ItemModel> {
        models(self.items@)
    }
}

impl SearchState {
    #[verifier::type_invariant]
    spec fn wf(self) -> bool {
        catalog_inv(self@)
    }

    /// An empty catalog.
    pub fn new() -> (c: SearchState)
        ensures
            c@ == Seq::<ItemModel>::empty(),
    {
        let c = SearchState { items: Vec::new() };
        proof {
            assert(c@ =~= Seq::<ItemModel>::empty());
        }
        c
    }

    /// The snapshot text that persists this catalog.
    pub fn to_snapshot(&self) -> (s: String)
        ensures
            s@ == enc_catalog(self@),
            bounded_models(self@),
            catalog_inv(self@),
    {
        proof {
            use_type_invariant(&*self);
        }
        encode_items(&self.items)
    }

    /// Loads a catalog back from its snapshot text. The text some catalog
    /// wrote comes back as exactly that catalog; text that does not encode a
    /// well-formed catalog is rejected.
    pub fn from_snapshot(text: &str) -> (r: Result<SearchState, SearchError>)
        ensures
            r matches Ok(c) ==> enc_catalog(c@) == text@,
            forall|ms: Seq<ItemModel>|
                bounded_models(ms) && catalog_inv(ms) && text@ == #[trigger] enc_catalog(ms)
                    ==> (r matches Ok(c) && c@ == ms),
    {
        let items = match decode_items(text) {
            Ok(v) => v,
            Err(e) => {
                return Err(e);
            },
        };
        let ghost dm = models(items@);
        let n = items.len();
        let mut i: usize = 0;
        while i < n
            invariant
                i <= n,
                n == items@.len(),
                dm == models(items@),
                enc_catalog(dm) == text@,
                forall|ms: Seq<ItemModel>|
                    bounded_models(ms) && text@ == #[trigger] enc_catalog(ms) ==> dm == ms,
                forall|j: int| 0 <= j < i ==> valid_item_id(#[trigger] dm[j]),
            decreases n - i,
        {
            if !check_item_id(&items[i]) {
                proof {
                    assert forall|ms: Seq<ItemModel>|
                        bounded_models(ms) && catalog_inv(ms) && text@ == #[trigger] enc_catalog(
                            ms,
                        ) implies false by {
                        assert(dm == ms);
                        assert(valid_item_id(ms[i as int]));
                        assert(dm[i as int] == models(items@)[i as int]);
                    }
                }
                return Err(
                    SearchError::Json(String::from_str("snapshot holds an item with a bad id")),
                );
            }
            i = i + 1;
        }
        let mut k: usize = 0;
        while k < n
            invariant
                k <= n,
                n == items@.len(),
                dm == models(items@),
                enc_catalog(dm) == text@,
                forall|ms: Seq<ItemModel>|
                    bounded_models(ms) && text@ == #[trigger] enc_catalog(ms) ==> dm == ms,
                forall|j: int| 0 <= j < n ==> valid_item_id(#[trigger] dm[j]),
                forall|a: int, b: int|
                    0 <= a < b < n && a < k ==> id_of(#[trigger] dm[a]) != id_of(#[trigger] dm[b]),
            decreases n - k,
        {
            let mut l: usize = k + 1;
            while l < n
                invariant
                    k < l <= n,
                    k < n,
                    n == items@.len(),
                    dm == models(items@),
                    forall|ms: Seq<ItemModel>|
                        bounded_models(ms) && text@ == #[trigger] enc_catalog(ms) ==> dm == ms,
                    forall|b: int| k < b < l ==> id_of(dm[k as int]) != id_of(#[trigger] dm[b]),
                decreases n - l,
            {
                if *item_id(&items[k]) == *item_id(&items[l]) {
                    proof {
                        assert forall|ms: Seq<ItemModel>|
                            bounded_models(ms) && catalog_inv(ms) && text@
                                == #[trigger] enc_catalog(ms) implies false by {
                            assert(dm == ms);
                            assert(id_of(ms[k as int]) != id_of(ms[l as int]));
                            assert(dm[k as int] == models(items@)[k as int]);
                            assert(dm[l as int] == models(items@)[l as int]);
                        }
                    }
                    return Err(
                        SearchError::Json(String::from_str("snapshot holds a duplicated id")),
                    );
                }
                l = l + 1;
            }
            k = k + 1;
        }
        let c = SearchState { items };
        Ok(c)
    }

    /// Upsert: rejects an item whose id misses its namespace prefix; removes
    /// any stored item with the same id, then appends the new one.
    pub fn index_item(&mut self, item: SearchableItem) -> (r: Result<(), SearchError>)
        ensures
            valid_item_id(item@) ==> r is Ok && final(self)@ == upsert_spec(
                old(self)@,
                item@,
            ),
            !valid_item_id(item@) ==> (r matches Err(e) && e is Other) && final(self)@ == old(
                self,
            )@,
            catalog_inv(final(self)@),
    {
        proof {
            use_type_invariant(&*self);
        }
        let ghost ms0 = self@;
        if !check_item_id(&item) {
            return Err(SearchError::Other(String::from_str("item id is invalid")));
        }
        let ghost oid = id_of(item@);
        let mut held: Vec<SearchableItem> = Vec::new();
        core::mem::swap(&mut held, &mut self.items);
        let ghost orig = held@;
        let mut kept: Vec<SearchableItem> = Vec::new();
        proof {
            assert(models(kept@) =~= Seq::<ItemModel>::empty());
            assert(models(kept@) + remove_id(models(held@), oid) =~= remove_id(
                models(orig),
                oid,
            ));
        }
        while held.len() > 0
            invariant
                oid == id_of(item@),
                models(kept@) + remove_id(models(held@), oid) == remove_id(models(orig), oid),
            decreases held.len(),
        {
            let ghost pre_held = models(held@);
            let ghost pre_kept = models(kept@);
            let it = held.remove(0);
            proof {
                assert(models(held@) =~= pre_held.drop_first());
                assert(pre_held[0] == it@);
            }
            if *item_id(&it) == *item_id(&item) {
                proof {
                    assert(id_of(it@) == oid);
                }
            } else {
                kept.push(it);
                proof {
                    assert(models(kept@) =~= pre_kept.push(it@));
                    assert(pre_kept.push(it@) + remove_id(models(held@), oid) =~= pre_kept + (
                    seq![it@] + remove_id(models(held@), oid)));
                }
            }
        }
        kept.push(item);
        proof {
            assert(models(held@) =~= Seq::<ItemModel>::empty());
            assert(models(kept@).drop_last() + remove_id(models(held@), oid) =~= models(
                kept@,
            ).drop_last());
            assert(models(kept@) =~= remove_id(ms0, oid).push(models(kept@).last()));
            lemma_remove_id_props(ms0, oid);
            let out = models(kept@);
            assert(out == upsert_spec(ms0, item@));
            assert forall|a: int, b: int| 0 <= a < b < out.len() implies id_of(
                #[trigger] out[a],
            ) != id_of(#[trigger] out[b]) by {
                if b < out.len() - 1 {
                    assert(out[a] == remove_id(ms0, oid)[a]);
                    assert(out[b] == remove_id(ms0, oid)[b]);
                    assert(catalog_inv(remove_id(ms0, oid)));
                } else {
                    assert(out[b] == item@);
                    assert(out[a] == remove_id(ms0, oid)[a]);
                    assert(id_of(out[a]) != oid);
                }
            }
            assert forall|a: int| 0 <= a < out.len() implies valid_item_id(#[trigger] out[a]) by {
                if a < out.len() - 1 {
                    assert(out[a] == remove_id(ms0, oid)[a]);
                }
            }
        }
        self.items = kept;
        Ok(())
    }

    /// Removes the item carrying the id; an absent id is reported, not
    /// silently ignored.
    pub fn delete_item(&mut self, object_id: &str) -> (r: Result<(), SearchError>)
        ensures
            contains_id(old(self)@, object_id@) ==> r is Ok && final(self)@ == remove_id(
                old(self)@,
                object_id@,
            ),
            !contains_id(old(self)@, object_id@) ==> (r matches Err(e) && e is NotFound)
                && final(self)@ == old(self)@,
            catalog_inv(final(self)@),
    {
        proof {
            use_type_invariant(&*self);
        }
        let ghost ms0 = self@;
        let ghost oid = object_id@;
        let oid_string = object_id.to_owned();
        let mut held: Vec<SearchableItem> = Vec::new();
        core::mem::swap(&mut held, &mut self.items);
        let ghost orig = held@;
        let mut kept: Vec<SearchableItem> = Vec::new();
        let mut found = false;
        proof {
            assert(models(kept@) =~= Seq::<ItemModel>::empty());
            assert(models(kept@) + remove_id(models(held@), oid) =~= remove_id(
                models(orig),
                oid,
            ));
        }
        while held.len() > 0
            invariant
                models(kept@) + remove_id(models(held@), oid) == remove_id(models(orig), oid),
                (found || contains_id(models(held@), oid)) == contains_id(models(orig), oid),
                oid == oid_string@,
            decreases held.len(),
        {
            let ghost pre_held = models(held@);
            let ghost pre_kept = models(kept@);
            let it = held.remove(0);
            proof {
                assert(models(held@) =~= pre_held.drop_first());
                assert(pre_held[0] == it@);
                lemma_contains_id_cons(pre_held, oid);
            }
            if *item_id(&it) == oid_string {
                found = true;
            } else {
                kept.push(it);
                proof {
                    assert(models(kept@) =~= pre_kept.push(it@));
                    assert(pre_kept.push(it@) + remove_id(models(held@), oid) =~= pre_kept + (
                    seq![it@] + remove_id(models(held@), oid)));
                }
            }
        }
        proof {
            assert(models(held@) =~= Seq::<ItemModel>::empty());
            assert(models(kept@) + remove_id(models(held@), oid) =~= models(kept@));
            lemma_remove_id_props(ms0, oid);
        }
        self.items = kept;
        if found {
            Ok(())
        } else {
            Err(SearchError::NotFound(oid_string))
        }
    }

    /// Adds one selection to the counter of the item carrying the id; all
    /// other items are untouched. An absent id is reported.
    pub fn record_item_usage(&mut self, object_id: &str) -> (r: Result<(), SearchError>)
        ensures
            contains_id(old(self)@, object_id@) ==> r is Ok && final(self)@ == record_spec(
                old(self)@,
                object_id@,
            ),
            !contains_id(old(self)@, object_id@) ==> (r matches Err(e) && e is NotFound)
                && final(self)@ == old(self)@,
            catalog_inv(final(self)@),
    {
        proof {
            use_type_invariant(&*self);
        }
        let ghost ms0 = self@;
        let ghost oid = object_id@;
        let oid_string = object_id.to_owned();
        let mut held: Vec<SearchableItem> = Vec::new();
        core::mem::swap(&mut held, &mut self.items);
        let n = held.len();
        let mut i: usize = 0;
        while i < n
            invariant
                i <= n,
                n == held@.len(),
                ms0 == models(held@),
                ms0 == old(self)@,
                catalog_inv(ms0),
                oid == oid_string@,
                oid == object_id@,
                forall|j: int| 0 <= j < i ==> id_of(#[trigger] ms0[j]) != oid,
            decreases n - i,
        {
            if *item_id(&held[i]) == oid_string {
                let ghost pre = models(held@);
                let it = held.remove(i);
                let b = bump_item(it);
                held.insert(i, b);
                proof {
                    assert(models(held@) =~= pre.update(i as int, bump_usage(pre[i as int])));
                    lemma_idx_of_id_unique(ms0, oid, i as int);
                    let out = models(held@);
                    assert(id_of(bump_usage(pre[i as int])) == id_of(pre[i as int]));
                    assert(valid_item_id(bump_usage(pre[i as int])) == valid_item_id(
                        pre[i as int],
                    ));
                    assert forall|a: int, b2: int| 0 <= a < b2 < out.len() implies id_of(
                        #[trigger] out[a],
                    ) != id_of(#[trigger] out[b2]) by {
                        assert(id_of(out[a]) == id_of(ms0[a]));
                        assert(id_of(out[b2]) == id_of(ms0[b2]));
                    }
                    assert forall|a: int| 0 <= a < out.len() implies valid_item_id(
                        #[trigger] out[a],
                    ) by {
                        if a != i {
                            assert(out[a] == ms0[a]);
                        }
                    }
                }
                self.items = held;
                return Ok(());
            }
            i = i + 1;
        }
        proof {
            assert(!contains_id(ms0, oid)) by {
                if contains_id(ms0, oid) {
                    let j = choose|j: int| 0 <= j < ms0.len() && id_of(#[trigger] ms0[j]) == oid;
                }
            }
        }
        self.items = held;
        Err(SearchError::NotFound(oid_string))
    }

    /// The ids of everything stored, in storage order, each exactly once.
    pub fn get_indexed_object_ids(&self) -> (r: Vec<String>)
        ensures
            r@.len() == self@.len(),
            forall|k: int| 0 <= k < r@.len() ==> (#[trigger] r@[k])@ == id_of(self@[k]),
            forall|k: int, l: int| 0 <= k < l < r@.len() ==> r@[k]@ != r@[l]@,
            catalog_inv(self@),
    {
        proof {
            use_type_invariant(&*self);
        }
        let mut out: Vec<String> = Vec::new();
        let n = self.items.len();
        let mut i: usize = 0;
        while i < n
            invariant
                i <= n,
                n == self@.len(),
                out@.len() == i,
                forall|k: int| 0 <= k < i ==> (#[trigger] out@[k])@ == id_of(self@[k]),
                catalog_inv(self@),
            decreases n - i,
        {
            out.push(item_id(&self.items[i]).clone());
            i = i + 1;
        }
        out
    }

    /// Clears the whole catalog.
    pub fn reset_search_index(&mut self)
        ensures
            final(self)@ == Seq::<ItemModel>::empty(),
    {
        let mut drained: Vec<SearchableItem> = Vec::new();
        core::mem::swap(&mut drained, &mut self.items);
        proof {
            assert(self@ =~= Seq::<ItemModel>::empty());
        }
    }

    /// Ranked search: under a blank query a usage-ordered suggestion list,
    /// under any other query the fuzzy matches in relevance order, usage as
    /// tie-break; deduplicated by id and capped.
    #[verifier::rlimit(100)]
    #[verifier::spinoff_prover]
    pub fn search_items(&self, query: &str) -> (r: Vec<SearchResult>)
        ensures
            search_post(self@, query@, result_models(r@)),
            catalog_inv(self@),
    {
        proof {
            use_type_invariant(&*self);
        }
        let ghost ms = self@;
        let trimmed = trim_blanks(query);
        let ghost q = trim_spec(query@);
        let blank = trimmed.as_str().is_empty();
        let n = self.items.len();
        let mut cands: Vec<Cand> = Vec::new();
        let mut i: usize = 0;
        proof {
            assert(ms.subrange(0, 0) =~= Seq::<ItemModel>::empty());
        }
        while i < n
            invariant
                i <= n,
                n == self@.len(),
                ms == self@,
                ms == models(self.items@),
                catalog_inv(ms),
                blank == (q.len() == 0),
                trimmed@ == q,
                forall|k: int| 0 <= k < cands@.len() ==> cand_wf(ms, q, #[trigger] cands@[k]),
                forall|k: int| 0 <= k < cands@.len() ==> (#[trigger] cands@[k]).idx < i,
                forall|k: int, l: int|
                    0 <= k < l < cands@.len() ==> (#[trigger] cands@[k]).idx != (
                    #[trigger] cands@[l]).idx,
                cands_sorted(ms, q, cands@),
                forall|j: int|
                    0 <= j < i && item_matches(#[trigger] ms[j], q) ==> exists|k: int|
                        0 <= k < cands@.len() && (#[trigger] cands@[k]).idx == j,
                cands@.len() == match_count(ms.subrange(0, i as int), q),
            decreases n - i,
        {
            let it = &self.items[i];
            let matched: bool;
            let mut sc: i64 = 0;
            if blank {
                matched = true;
                sc = get_usage_count(it) as i64;
            } else {
                match skim_fuzzy_match(it.get_name(), trimmed.as_str()) {
                    Some(s) => {
                        matched = true;
                        sc = s;
                    },
                    None => {
                        matched = false;
                    },
                }
            }
            proof {
                assert(ms.subrange(0, i + 1).drop_last() =~= ms.subrange(0, i as int));
                assert(ms.subrange(0, i + 1).last() == ms[i as int]);
            }
            if matched {
                let c = Cand { score: sc, usage: get_usage_count(it), idx: i };
                let ghost pre = cands@;
                proof {
                    assert(cand_wf(ms, q, c));
                }
                insert_cand(&self.items, blank, Ghost(q), &mut cands, c);
                proof {
                    let p = choose|p: int| 0 <= p <= pre.len() && cands@ == pre.insert(p, c);
                    pre.insert_ensures(p, c);
                    assert forall|k: int| 0 <= k < cands@.len() implies cand_wf(
                        ms,
                        q,
                        #[trigger] cands@[k],
                    ) && cands@[k].idx < i + 1 by {
                        if k < p {
                            assert(cands@[k] == pre[k]);
                        } else if k == p {
                            assert(cands@[k] == c);
                        } else {
                            assert(cands@[k] == pre[k - 1]);
                        }
                    }
                    assert forall|k: int, l: int| 0 <= k < l < cands@.len() implies (
                    #[trigger] cands@[k]).idx != (#[trigger] cands@[l]).idx by {
                        if k != p && l != p {
                            let k0 = if k < p { k } else { k - 1 };
                            let l0 = if l < p { l } else { l - 1 };
                            assert(cands@[k] == pre[k0]);
                            assert(cands@[l] == pre[l0]);
                        } else if k == p {
                            assert(cands@[l] == pre[l - 1]);
                            assert(pre[l - 1].idx < i);
                        } else {
                            assert(cands@[k] == pre[k]);
                            assert(pre[k].idx < i);
                        }
                    }
                    assert forall|j: int|
                        0 <= j < i + 1 && item_matches(#[trigger] ms[j], q) implies exists|k: int|
                        0 <= k < cands@.len() && (#[trigger] cands@[k]).idx == j by {
                        if j == i {
                            assert(cands@[p].idx == i);
                        } else {
                            let k0 = choose|k0: int|
                                0 <= k0 < pre.len() && (#[trigger] pre[k0]).idx == j;
                            if k0 < p {
                                assert(cands@[k0].idx == j);
                            } else {
                                assert(cands@[k0 + 1].idx == j);
                            }
                        }
                    }
                }
            }
            i = i + 1;
        }
        proof {
            assert(ms.subrange(0, n as int) =~= ms);
        }
        let lim = if cands.len() < RESULT_LIMIT {
            cands.len()
        } else {
            RESULT_LIMIT
        };
        let mut out: Vec<SearchResult> = Vec::new();
        let mut k: usize = 0;
        while k < lim
            invariant
                k <= lim,
                lim <= cands@.len(),
                lim == if cands@.len() < RESULT_LIMIT as int {
                    cands@.len() as int
                } else {
                    RESULT_LIMIT as int
                },
                ms == self@,
                ms == models(self.items@),
                catalog_inv(ms),
                blank == (q.len() == 0),
                forall|j: int| 0 <= j < cands@.len() ==> cand_wf(ms, q, #[trigger] cands@[j]),
                forall|j: int, l: int|
                    0 <= j < l < cands@.len() ==> (#[trigger] cands@[j]).idx != (
                    #[trigger] cands@[l]).idx,
                cands_sorted(ms, q, cands@),
                forall|j: int|
                    0 <= j < ms.len() && item_matches(#[trigger] ms[j], q) ==> exists|k2: int|
                        0 <= k2 < cands@.len() && (#[trigger] cands@[k2]).idx == j,
                cands@.len() == match_count(ms, q),
                out@.len() == k,
                forall|j: int|
                    0 <= j < k ==> (#[trigger] out@[j])@ == result_for(
                        ms[cands@[j].idx as int],
                        score_of(ms[cands@[j].idx as int], q),
                    ),
            decreases lim - k,
        {
            let c_idx = cands[k].idx;
            let c_score = cands[k].score;
            let it = &self.items[c_idx];
            let res = make_result(it, c_score);
            proof {
                assert(cand_wf(ms, q, cands@[k as int]));
                assert(c_score == score_of(ms[c_idx as int], q));
            }
            out.push(res);
            k = k + 1;
        }
        proof {
            let rs = result_models(out@);
            assert(rs.len() == out@.len());
            assert forall|j: int| 0 <= j < rs.len() implies #[trigger] rs[j] == result_for(
                ms[cands@[j].idx as int],
                score_of(ms[cands@[j].idx as int], q),
            ) && item_at_id(ms, rs[j].object_id) == ms[cands@[j].idx as int] && contains_id(
                ms,
                rs[j].object_id,
            ) by {
                assert(rs[j] == out@[j]@);
                lemma_idx_of_id_unique(ms, id_of(ms[cands@[j].idx as int]), cands@[j].idx as int);
            }
            assert forall|j: int| 0 <= j < rs.len() implies result_faithful(
                ms,
                q,
                #[trigger] rs[j],
            ) by {
                assert(cand_wf(ms, q, cands@[j]));
            }
            assert forall|a: int, b: int| 0 <= a < b < rs.len() implies (
            #[trigger] rs[a]).object_id != (#[trigger] rs[b]).object_id by {
                assert(cands@[a].idx != cands@[b].idx);
                let ia = cands@[a].idx as int;
                let ib = cands@[b].idx as int;
                if ia < ib {
                    assert(id_of(ms[ia]) != id_of(ms[ib]));
                } else {
                    assert(id_of(ms[ib]) != id_of(ms[ia]));
                }
            }
            assert forall|a: int, b: int| 0 <= a < b < rs.len() implies item_before_eq(
                q,
                item_at_id(ms, (#[trigger] rs[a]).object_id),
                item_at_id(ms, (#[trigger] rs[b]).object_id),
            ) by {
                assert(item_before_eq(q, ms[cands@[a].idx as int], ms[cands@[b].idx as int]));
            }
            assert forall|j: int|
                0 <= j < ms.len() && item_matches(#[trigger] ms[j], q) && rs.len() < RESULT_LIMIT
                    as int implies has_result_id(rs, id_of(ms[j])) by {
                let k2 = choose|k2: int|
                    0 <= k2 < cands@.len() && (#[trigger] cands@[k2]).idx == j;
                assert(rs[k2].object_id == id_of(ms[j]));
            }
            assert forall|j: int, a: int|
                0 <= j < ms.len() && item_matches(#[trigger] ms[j], q) && !has_result_id(
                    rs,
                    id_of(ms[j]),
                ) && 0 <= a < rs.len() implies item_before_eq(
                q,
                item_at_id(ms, (#[trigger] rs[a]).object_id),
                ms[j],
            ) by {
                let k2 = choose|k2: int|
                    0 <= k2 < cands@.len() && (#[trigger] cands@[k2]).idx == j;
                if k2 < rs.len() {
                    assert(rs[k2].object_id == id_of(ms[j]));
                    assert(false);
                } else {
                    assert(item_before_eq(q, ms[cands@[a].idx as int], ms[cands@[k2].idx as int]));
                }
            }
        }
        out
    }
}

proof fn lemma_contains_id_cons(ms: Seq<ItemModel>, id: Seq<char>)
    requires
        ms.len() > 0,
    ensures
        contains_id(ms, id) <==> (id_of(ms[0]) == id || contains_id(ms.drop_first(), id)),
{
    let t = ms.drop_first();
    if contains_id(ms, id) {
        let i = choose|i: int| 0 <= i < ms.len() && id_of(#[trigger] ms[i]) == id;
        if i > 0 {
            assert(t[i - 1] == ms[i]);
            assert(contains_id(t, id));
        }
    }
    if contains_id(t, id) {
        let i = choose|i: int| 0 <= i < t.len() && id_of(#[trigger] t[i]) == id;
        assert(ms[i + 1] == t[i]);
        assert(contains_id(ms, id));
    }
    if id_of(ms[0]) == id {
        assert(contains_id(ms, id));
    }
}

/// Some listed result carries this id.
pub open spec fn has_result_id(rs: Seq<ResultModel>, id: Seq<char>) -> bool {
    exists|k: int| 0 <= k < rs.len() && (#[trigger] rs[k]).object_id == id
}

/// A result faithfully reflects the stored item carrying its id: same name,
/// same variant tag, the path for applications, and the score the ranking
/// mode assigns.
pub open spec fn result_faithful(ms: Seq<ItemModel>, q: Seq<char>, r: ResultModel) -> bool {
    &&& contains_id(ms, r.object_id)
    &&& item_matches(item_at_id(ms, r.object_id), q)
    &&& r == result_for(item_at_id(ms, r.object_id), score_of(item_at_id(ms, r.object_id), q))
}

/// Everything a search promises: as many results as there are answering
/// items, up to the cap; each faithful to its stored item; no id twice; the
/// list in ranking order; nothing answering left out below the cap; and
/// nothing kept that ranks below something left out.
pub open spec fn search_post(ms: Seq<ItemModel>, qraw: Seq<char>, rs: Seq<ResultModel>) -> bool {
    let q = trim_spec(qraw);
    &&& rs.len() == if match_count(ms, q) < RESULT_LIMIT as int {
        match_count(ms, q)
    } else {
        RESULT_LIMIT as int
    }
    &&& forall|k: int| 0 <= k < rs.len() ==> result_faithful(ms, q, #[trigger] rs[k])
    &&& forall|k: int, l: int|
        0 <= k < l < rs.len() ==> (#[trigger] rs[k]).object_id != (#[trigger] rs[l]).object_id
    &&& forall|k: int, l: int|
        0 <= k < l < rs.len() ==> item_before_eq(
            q,
            item_at_id(ms, (#[trigger] rs[k]).object_id),
            item_at_id(ms, (#[trigger] rs[l]).object_id),
        )
    &&& forall|i: int|
        0 <= i < ms.len() && item_matches(#[trigger] ms[i], q) && rs.len() < RESULT_LIMIT as int
            ==> has_result_id(rs, id_of(ms[i]))
    &&& forall|i: int, k: int|
        0 <= i < ms.len() && item_matches(#[trigger] ms[i], q) && !has_result_id(
            rs,
            id_of(ms[i]),
        ) && 0 <= k < rs.len() ==> item_before_eq(
            q,
            item_at_id(ms, (#[trigger] rs[k]).object_id),
            ms[i],
        )
}

fn make_result(it: &SearchableItem, score: i64) -> (r: SearchResult)
    ensures
        r@ == result_for(it@, score),
{
    match it {
        SearchableItem::Application(a) => {
            let r = SearchResult {
                object_id: a.id.clone(),
                name: a.name.clone(),
                result_type: String::from_str("application"),
                score,
                path: Some(a.path.clone()),
            };
            proof {
                assert(r@ =~= result_for(it@, score));
            }
            r
        },
        SearchableItem::Command(c) => {
            let r = SearchResult {
                object_id: c.id.clone(),
                name: c.name.clone(),
                result_type: String::from_str("command"),
                score,
                path: None,
            };
            proof {
                assert(r@ =~= result_for(it@, score));
            }
            r
        },
    }
}

proof fn lemma_remove_id_push(s: Seq<ItemModel>, m: ItemModel, id: Seq<char>)
    ensures
        remove_id(s.push(m), id) == if id_of(m) == id {
            remove_id(s, id)
        } else {
            remove_id(s, id).push(m)
        },
    decreases s.len(),
{
    if s.len() == 0 {
        let e = Seq::<ItemModel>::empty();
        assert(s =~= e);
        assert(remove_id(e, id) == e);
        assert(s.push(m)[0] == m);
        assert(s.push(m).drop_first() =~= e);
        if id_of(m) == id {
            assert(remove_id(s.push(m), id) == remove_id(e, id));
        } else {
            assert(remove_id(s.push(m), id) == seq![m] + remove_id(e, id));
            assert(seq![m] + e =~= e.push(m));
        }
    } else {
        assert(s.push(m)[0] == s[0]);
        assert(s.push(m).drop_first() =~= s.drop_first().push(m));
        lemma_remove_id_push(s.drop_first(), m, id);
        if id_of(s[0]) != id && id_of(m) != id {
            assert(seq![s[0]] + remove_id(s.drop_first(), id).push(m) =~= (seq![s[0]] + remove_id(
                s.drop_first(),
                id,
            )).push(m));
        }
    }
}

/// Upsert idempotence: indexing the same id twice leaves exactly what
/// indexing the later value once leaves, and the second call does not change
/// how many items are stored.
pub proof fn lemma_upsert_idempotent(ms: Seq<ItemModel>, m1: ItemModel, m2: ItemModel)
    requires
        id_of(m1) == id_of(m2),
    ensures
        upsert_spec(upsert_spec(ms, m1), m2) == upsert_spec(ms, m2),
        upsert_spec(upsert_spec(ms, m1), m2).len() == upsert_spec(ms, m1).len(),
{
    let id = id_of(m2);
    lemma_remove_id_props(ms, id);
    let base = remove_id(ms, id);
    lemma_remove_id_push(base, m1, id);
    assert(!contains_id(base, id)) by {
        if contains_id(base, id) {
            let i = choose|i: int| 0 <= i < base.len() && id_of(#[trigger] base[i]) == id;
        }
    }
    lemma_remove_id_props(base, id);
}

/// After a delete nothing stored carries the deleted id.
pub proof fn lemma_delete_removes(ms: Seq<ItemModel>, id: Seq<char>)
    ensures
        !contains_id(remove_id(ms, id), id),
{
    lemma_remove_id_props(ms, id);
    if contains_id(remove_id(ms, id), id) {
        let i = choose|i: int|
            0 <= i < remove_id(ms, id).len() && id_of(#[trigger] remove_id(ms, id)[i]) == id;
    }
}

/// A search never answers with an id the catalog does not hold; together
/// with `lemma_delete_removes`, no search after a delete bears the deleted
/// id.
pub proof fn lemma_search_results_only_stored_ids(
    ms: Seq<ItemModel>,
    qraw: Seq<char>,
    rs: Seq<ResultModel>,
)
    requires
        search_post(ms, qraw, rs),
    ensures
        forall|k: int| 0 <= k < rs.len() ==> contains_id(ms, (#[trigger] rs[k]).object_id),
{
    assert forall|k: int| 0 <= k < rs.len() implies contains_id(
        ms,
        (#[trigger] rs[k]).object_id,
    ) by {
        assert(result_faithful(ms, trim_spec(qraw), rs[k]));
    }
}

/// The empty catalog persists as the empty text, so a catalog reloaded after
/// a reset is empty again.
pub proof fn lemma_empty_catalog_snapshot()
    ensures
        enc_catalog(Seq::<ItemModel>::empty()) == Seq::<char>::empty(),
{
}

proof fn lemma_record_step(ms: Seq<ItemModel>, id: Seq<char>)
    requires
        catalog_inv(ms),
        contains_id(ms, id),
    ensures
        record_spec(ms, id).len() == ms.len(),
        catalog_inv(record_spec(ms, id)),
        contains_id(record_spec(ms, id), id),
        idx_of_id(record_spec(ms, id), id) == idx_of_id(ms, id),
        forall|j: int|
            0 <= j < ms.len() && j != idx_of_id(ms, id) ==> #[trigger] record_spec(ms, id)[j]
                == ms[j],
        usage_of(item_at_id(record_spec(ms, id), id)) == if usage_of(item_at_id(ms, id))
            < USAGE_MAX {
            (usage_of(item_at_id(ms, id)) + 1) as u32
        } else {
            USAGE_MAX
        },
{
    lemma_idx_of_id_in(ms, id);
    let i = idx_of_id(ms, id);
    let out = record_spec(ms, id);
    assert(id_of(bump_usage(ms[i])) == id_of(ms[i]));
    assert(valid_item_id(bump_usage(ms[i])) == valid_item_id(ms[i]));
    assert forall|a: int, b: int| 0 <= a < b < out.len() implies id_of(#[trigger] out[a]) != id_of(
        #[trigger] out[b],
    ) by {
        assert(id_of(out[a]) == id_of(ms[a]));
        assert(id_of(out[b]) == id_of(ms[b]));
    }
    assert forall|a: int| 0 <= a < out.len() implies valid_item_id(#[trigger] out[a]) by {
        if a != i {
            assert(out[a] == ms[a]);
        }
    }
    assert(id_of(out[i]) == id);
    lemma_idx_of_id_unique(out, id, i);
}

/// Usage accumulation: recording usage for one id `n` times adds exactly `n`
/// to that item's counter and leaves every other stored item untouched.
pub proof fn lemma_usage_accumulation(ms: Seq<ItemModel>, id: Seq<char>, n: nat)
    requires
        catalog_inv(ms),
        contains_id(ms, id),
        usage_of(item_at_id(ms, id)) + n <= USAGE_MAX,
    ensures
        record_n(ms, id, n).len() == ms.len(),
        catalog_inv(record_n(ms, id, n)),
        contains_id(record_n(ms, id, n), id),
        idx_of_id(record_n(ms, id, n), id) == idx_of_id(ms, id),
        forall|j: int|
            0 <= j < ms.len() && j != idx_of_id(ms, id) ==> #[trigger] record_n(ms, id, n)[j]
                == ms[j],
        usage_of(item_at_id(record_n(ms, id, n), id)) == usage_of(item_at_id(ms, id)) + n,
    decreases n,
{
    if n > 0 {
        lemma_usage_accumulation(ms, id, (n - 1) as nat);
        lemma_record_step(record_n(ms, id, (n - 1) as nat), id);
    }
}

} // verus!
