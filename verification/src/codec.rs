//! The durable snapshot codec: the whole catalog written as one
//! self-describing text record per item, and the parser that reads it back.
//! Each record is a variant tag, length-prefixed string fields, the usage
//! counter as a numeral, and a closing newline. Decoding is proved to return
//! exactly the catalog that encoding wrote.

use vstd::prelude::*;
use crate::model::Application;
use crate::model::Command;
use crate::model::ItemModel;
use crate::model::SearchableItem;
use crate::model::models;
use crate::hexfmt::u64_hex;
use crate::hexfmt::pow16;
use crate::hexfmt::append_u64_hex;
use crate::hexfmt::parse_u64_hex;
use crate::hexfmt::lemma_pow16_u64;
use crate::hexfmt::lemma_u64_hex_props;
use crate::hexfmt::lemma_u64_hex_inj;
use crate::errors::SearchError;

verus! {

/// A string field as text: its length as a numeral, a separator, then the
/// characters themselves.
pub open spec fn enc_str(s: Seq<char>) -> Seq<char> {
    u64_hex(s.len() as int, 16) + (seq![':'] + s)
}

/// One catalog entry as text.
pub open spec fn enc_item(m: ItemModel) -> Seq<char> {
    match m {
        ItemModel::App { id, name, path, usage } => seq!['A'] + (enc_str(id) + (enc_str(name) + (
        enc_str(path) + (u64_hex(usage as int, 16) + seq!['\n'])))),
        ItemModel::Cmd { id, name, extension, trigger, kind, usage } => seq!['C'] + (enc_str(id) + (
        enc_str(name) + (enc_str(extension) + (enc_str(trigger) + (enc_str(kind) + (u64_hex(
            usage as int,
            16,
        ) + seq!['\n'])))))),
    }
}

/// The whole catalog as text: the items' records in order.
pub open spec fn enc_catalog(ms: Seq<ItemModel>) -> Seq<char>
    decreases ms.len(),
{
    if ms.len() == 0 {
        Seq::empty()
    } else {
        enc_item(ms[0]) + enc_catalog(ms.drop_first())
    }
}

/// Every string field is short enough for its length to fit one numeral.
pub open spec fn bounded_model(m: ItemModel) -> bool {
    match m {
        ItemModel::App { id, name, path, .. } => id.len() < pow16(16) && name.len() < pow16(16)
            && path.len() < pow16(16),
        ItemModel::Cmd { id, name, extension, trigger, kind, .. } => id.len() < pow16(16)
            && name.len() < pow16(16) && extension.len() < pow16(16) && trigger.len() < pow16(16)
            && kind.len() < pow16(16),
    }
}

pub open spec fn bounded_models(ms: Seq<ItemModel>) -> bool {
    forall|i: int| 0 <= i < ms.len() ==> bounded_model(#[trigger] ms[i])
}

pub proof fn lemma_enc_catalog_snoc(ms: Seq<ItemModel>, m: ItemModel)
    ensures
        enc_catalog(ms.push(m)) == enc_catalog(ms) + enc_item(m),
    decreases ms.len(),
{
    if ms.len() == 0 {
        assert(ms.push(m)[0] == m);
        assert(ms.push(m).drop_first() =~= Seq::<ItemModel>::empty());
        assert(enc_item(m) + enc_catalog(Seq::empty()) =~= enc_item(m));
        assert(enc_catalog(ms) + enc_item(m) =~= enc_item(m));
    } else {
        assert(ms.push(m).drop_first() =~= ms.drop_first().push(m));
        lemma_enc_catalog_snoc(ms.drop_first(), m);
        assert(ms.push(m)[0] == ms[0]);
        assert(enc_item(ms[0]) + (enc_catalog(ms.drop_first()) + enc_item(m)) =~= (enc_item(ms[0])
            + enc_catalog(ms.drop_first())) + enc_item(m));
    }
}

/// A record is never empty, so an empty text encodes the empty catalog only.
pub proof fn lemma_enc_catalog_empty(ms: Seq<ItemModel>)
    requires
        enc_catalog(ms).len() == 0,
    ensures
        ms.len() == 0,
{
    if ms.len() > 0 {
        assert(enc_item(ms[0]).len() >= 1);
    }
}

/// `t` stands written in `v` at position `pos`.
pub open spec fn has_at(v: Seq<char>, pos: int, t: Seq<char>) -> bool {
    &&& 0 <= pos
    &&& pos + t.len() <= v.len()
    &&& v.subrange(pos, pos + t.len()) == t
}

/// A concatenation stands at a position exactly when its parts stand there in
/// order.
pub proof fn lemma_has_at_concat(v: Seq<char>, pos: int, a: Seq<char>, b: Seq<char>)
    ensures
        has_at(v, pos, a + b) <==> (has_at(v, pos, a) && has_at(v, pos + a.len(), b)),
{
    if has_at(v, pos, a + b) {
        let w = v.subrange(pos, pos + a.len() + b.len());
        assert(w == a + b);
        assert forall|i: int| 0 <= i < a.len() implies v.subrange(pos, pos + a.len())[i]
            == a[i] by {
            assert(v[pos + i] == w[i]);
            assert(w[i] == (a + b)[i]);
        }
        assert(v.subrange(pos, pos + a.len()) =~= a);
        assert forall|j: int| 0 <= j < b.len() implies v.subrange(
            pos + a.len(),
            pos + a.len() + b.len(),
        )[j] == b[j] by {
            assert(v[pos + a.len() + j] == w[a.len() + j]);
            assert(w[a.len() + j] == (a + b)[a.len() + j]);
        }
        assert(v.subrange(pos + a.len(), pos + a.len() + b.len()) =~= b);
    }
    if has_at(v, pos, a) && has_at(v, pos + a.len(), b) {
        assert(v.subrange(pos, pos + a.len() + b.len()) =~= a + b);
    }
}

proof fn lemma_has_at_singleton(v: Seq<char>, pos: int, c: char)
    ensures
        has_at(v, pos, seq![c]) <==> (0 <= pos && pos + 1 <= v.len() && v[pos] == c),
{
    if 0 <= pos && pos + 1 <= v.len() && v[pos] == c {
        assert(v.subrange(pos, pos + 1) =~= seq![c]);
    }
    if has_at(v, pos, seq![c]) {
        assert(v[pos] == v.subrange(pos, pos + 1)[0]);
    }
}

proof fn lemma_enc_str_shape(v: Seq<char>, pos: int, t: Seq<char>)
    requires
        0 <= pos,
        t.len() < pow16(16),
    ensures
        enc_str(t).len() == 17 + t.len(),
        has_at(v, pos, enc_str(t)) <==> ({
            &&& pos + 17 + t.len() <= v.len()
            &&& v.subrange(pos, pos + 16) == u64_hex(t.len() as int, 16)
            &&& v[pos + 16] == ':'
            &&& v.subrange(pos + 17, pos + 17 + t.len()) == t
        }),
{
    lemma_u64_hex_props(t.len() as int, 16);
    lemma_has_at_concat(v, pos, u64_hex(t.len() as int, 16), seq![':'] + t);
    lemma_has_at_concat(v, pos + 16, seq![':'], t);
    lemma_has_at_singleton(v, pos + 16, ':');
}

fn append_field(out: &mut String, s: &String)
    ensures
        final(out)@ == old(out)@ + enc_str(s@),
        s@.len() < pow16(16),
{
    let ghost pre = out@;
    proof {
        lemma_pow16_u64();
    }
    let n = s.as_str().unicode_len();
    append_u64_hex(out, n as u64);
    out.append(":");
    out.append(s.as_str());
    proof {
        reveal_strlit(":");
        assert(out@ =~= pre + enc_str(s@));
    }
}

fn append_item(out: &mut String, it: &SearchableItem)
    ensures
        final(out)@ == old(out)@ + enc_item(it@),
        bounded_model(it@),
{
    let ghost pre = out@;
    proof {
        reveal_strlit("A");
        reveal_strlit("C");
        reveal_strlit("\n");
    }
    match it {
        SearchableItem::Application(a) => {
            out.append("A");
            append_field(out, &a.id);
            append_field(out, &a.name);
            append_field(out, &a.path);
            append_u64_hex(out, a.usage_count as u64);
            out.append("\n");
            proof {
                assert(out@ =~= pre + enc_item(it@));
            }
        },
        SearchableItem::Command(c) => {
            out.append("C");
            append_field(out, &c.id);
            append_field(out, &c.name);
            append_field(out, &c.extension);
            append_field(out, &c.trigger);
            append_field(out, &c.command_type);
            append_u64_hex(out, c.usage_count as u64);
            out.append("\n");
            proof {
                assert(out@ =~= pre + enc_item(it@));
            }
        },
    }
}

/// Writes the snapshot text for a whole catalog.
pub fn encode_items(items: &Vec<SearchableItem>) -> (out: String)
    ensures
        out@ == enc_catalog(models(items@)),
        bounded_models(models(items@)),
{
    let mut out = String::new();
    let mut i: usize = 0;
    proof {
        assert(models(items@.subrange(0, 0)) =~= Seq::<ItemModel>::empty());
    }
    while i < items.len()
        invariant
            i <= items.len(),
            out@ == enc_catalog(models(items@.subrange(0, i as int))),
            forall|j: int| 0 <= j < i ==> bounded_model(#[trigger] models(items@)[j]),
        decreases items.len() - i,
    {
        let it = &items[i];
        append_item(&mut out, it);
        proof {
            let prev = models(items@.subrange(0, i as int));
            let cur = models(items@.subrange(0, i + 1));
            assert(cur =~= prev.push(items@[i as int]@));
            lemma_enc_catalog_snoc(prev, items@[i as int]@);
        }
        i = i + 1;
    }
    proof {
        assert(items@.subrange(0, items@.len() as int) =~= items@);
    }
    out
}

fn parse_field(s: &str, pos: usize) -> (r: Option<(String, usize)>)
    ensures
        r matches Some(p) ==> ({
            &&& p.0@.len() < pow16(16)
            &&& p.1 == pos + 17 + p.0@.len()
            &&& has_at(s@, pos as int, enc_str(p.0@))
        }),
        forall|t: Seq<char>|
            t.len() < pow16(16) && has_at(s@, pos as int, #[trigger] enc_str(t)) ==> (r matches Some(
                p,
            ) && p.0@ == t && p.1 == pos + 17 + t.len()),
{
    proof {
        lemma_pow16_u64();
    }
    let len = s.unicode_len();
    let opt_n = parse_u64_hex(s, pos);
    let ln = match opt_n {
        Some(n) => n,
        None => {
            proof {
                assert forall|t: Seq<char>|
                    t.len() < pow16(16) && has_at(s@, pos as int, #[trigger] enc_str(t)) implies false by {
                    lemma_enc_str_shape(s@, pos as int, t);
                    let m = t.len() as u64;
                    assert(s@.subrange(pos as int, pos as int + 16) == u64_hex(m as int, 16));
                }
            }
            return None;
        },
    };
    if pos + 16 == len {
        proof {
            assert forall|t: Seq<char>|
                t.len() < pow16(16) && has_at(s@, pos as int, #[trigger] enc_str(t)) implies false by {
                lemma_enc_str_shape(s@, pos as int, t);
            }
        }
        return None;
    }
    let colon = s.get_char(pos + 16);
    if colon != ':' {
        proof {
            assert forall|t: Seq<char>|
                t.len() < pow16(16) && has_at(s@, pos as int, #[trigger] enc_str(t)) implies false by {
                lemma_enc_str_shape(s@, pos as int, t);
            }
        }
        return None;
    }
    let avail = len - (pos + 17);
    if ln > avail as u64 {
        proof {
            assert forall|t: Seq<char>|
                t.len() < pow16(16) && has_at(s@, pos as int, #[trigger] enc_str(t)) implies false by {
                lemma_enc_str_shape(s@, pos as int, t);
                lemma_u64_hex_inj(ln as int, t.len() as int, 16);
            }
        }
        return None;
    }
    let fl = ln as usize;
    let fs = s.substring_char(pos + 17, pos + 17 + fl);
    let f = fs.to_owned();
    let end = pos + 17 + fl;
    proof {
        lemma_enc_str_shape(s@, pos as int, f@);
        assert(has_at(s@, pos as int, enc_str(f@)));
        assert forall|t: Seq<char>|
            t.len() < pow16(16) && has_at(s@, pos as int, #[trigger] enc_str(t)) implies t == f@
            && end == pos + 17 + t.len() by {
            lemma_enc_str_shape(s@, pos as int, t);
            lemma_u64_hex_inj(ln as int, t.len() as int, 16);
            assert(t =~= f@);
        }
    }
    Some((f, end))
}

proof fn lemma_app_shape(v: Seq<char>, pos: int, id: Seq<char>, name: Seq<char>, path: Seq<char>, usage: u32)
    requires
        0 <= pos,
        id.len() < pow16(16),
        name.len() < pow16(16),
        path.len() < pow16(16),
    ensures
        enc_item(ItemModel::App { id, name, path, usage }).len() == 69 + id.len() + name.len()
            + path.len(),
        has_at(v, pos, enc_item(ItemModel::App { id, name, path, usage })) <==> ({
            &&& pos + 69 + id.len() + name.len() + path.len() <= v.len()
            &&& v[pos] == 'A'
            &&& has_at(v, pos + 1, enc_str(id))
            &&& has_at(v, pos + 18 + id.len(), enc_str(name))
            &&& has_at(v, pos + 35 + id.len() + name.len(), enc_str(path))
            &&& v.subrange(
                pos + 52 + id.len() + name.len() + path.len(),
                pos + 68 + id.len() + name.len() + path.len(),
            ) == u64_hex(usage as int, 16)
            &&& v[pos + 68 + id.len() + name.len() + path.len()] == '\n'
        }),
{
    lemma_u64_hex_props(id.len() as int, 16);
    lemma_u64_hex_props(name.len() as int, 16);
    lemma_u64_hex_props(path.len() as int, 16);
    lemma_u64_hex_props(usage as int, 16);
    let tail4 = u64_hex(usage as int, 16) + seq!['\n'];
    let tail3 = enc_str(path) + tail4;
    let tail2 = enc_str(name) + tail3;
    let tail1 = enc_str(id) + tail2;
    lemma_has_at_concat(v, pos, seq!['A'], tail1);
    lemma_has_at_singleton(v, pos, 'A');
    lemma_has_at_concat(v, pos + 1, enc_str(id), tail2);
    lemma_has_at_concat(v, pos + 18 + id.len(), enc_str(name), tail3);
    lemma_has_at_concat(v, pos + 35 + id.len() + name.len(), enc_str(path), tail4);
    lemma_has_at_concat(
        v,
        pos + 52 + id.len() + name.len() + path.len(),
        u64_hex(usage as int, 16),
        seq!['\n'],
    );
    lemma_has_at_singleton(v, pos + 68 + id.len() + name.len() + path.len(), '\n');
}

proof fn lemma_cmd_shape(
    v: Seq<char>,
    pos: int,
    id: Seq<char>,
    name: Seq<char>,
    extension: Seq<char>,
    trigger_s: Seq<char>,
    kind: Seq<char>,
    usage: u32,
)
    requires
        0 <= pos,
        id.len() < pow16(16),
        name.len() < pow16(16),
        extension.len() < pow16(16),
        trigger_s.len() < pow16(16),
        kind.len() < pow16(16),
    ensures
        enc_item(
            ItemModel::Cmd { id, name, extension, trigger: trigger_s, kind, usage },
        ).len() == 103 + id.len() + name.len() + extension.len() + trigger_s.len() + kind.len(),
        has_at(
            v,
            pos,
            enc_item(ItemModel::Cmd { id, name, extension, trigger: trigger_s, kind, usage }),
        ) <==> ({
            let s5 = id.len() + name.len() + extension.len() + trigger_s.len() + kind.len();
            &&& pos + 103 + s5 <= v.len()
            &&& v[pos] == 'C'
            &&& has_at(v, pos + 1, enc_str(id))
            &&& has_at(v, pos + 18 + id.len(), enc_str(name))
            &&& has_at(v, pos + 35 + id.len() + name.len(), enc_str(extension))
            &&& has_at(
                v,
                pos + 52 + id.len() + name.len() + extension.len(),
                enc_str(trigger_s),
            )
            &&& has_at(
                v,
                pos + 69 + id.len() + name.len() + extension.len() + trigger_s.len(),
                enc_str(kind),
            )
            &&& v.subrange(pos + 86 + s5, pos + 102 + s5) == u64_hex(usage as int, 16)
            &&& v[pos + 102 + s5] == '\n'
        }),
{
    lemma_u64_hex_props(id.len() as int, 16);
    lemma_u64_hex_props(name.len() as int, 16);
    lemma_u64_hex_props(extension.len() as int, 16);
    lemma_u64_hex_props(trigger_s.len() as int, 16);
    lemma_u64_hex_props(kind.len() as int, 16);
    lemma_u64_hex_props(usage as int, 16);
    let tail6 = u64_hex(usage as int, 16) + seq!['\n'];
    let tail5 = enc_str(kind) + tail6;
    let tail4 = enc_str(trigger_s) + tail5;
    let tail3 = enc_str(extension) + tail4;
    let tail2 = enc_str(name) + tail3;
    let tail1 = enc_str(id) + tail2;
    lemma_has_at_concat(v, pos, seq!['C'], tail1);
    lemma_has_at_singleton(v, pos, 'C');
    lemma_has_at_concat(v, pos + 1, enc_str(id), tail2);
    lemma_has_at_concat(v, pos + 18 + id.len(), enc_str(name), tail3);
    lemma_has_at_concat(v, pos + 35 + id.len() + name.len(), enc_str(extension), tail4);
    lemma_has_at_concat(
        v,
        pos + 52 + id.len() + name.len() + extension.len(),
        enc_str(trigger_s),
        tail5,
    );
    lemma_has_at_concat(
        v,
        pos + 69 + id.len() + name.len() + extension.len() + trigger_s.len(),
        enc_str(kind),
        tail6,
    );
    let s5 = id.len() + name.len() + extension.len() + trigger_s.len() + kind.len();
    lemma_has_at_concat(v, pos + 86 + s5, u64_hex(usage as int, 16), seq!['\n']);
    lemma_has_at_singleton(v, pos + 102 + s5, '\n');
}

#[verifier::rlimit(100)]
fn parse_app(s: &str, pos: usize) -> (r: Option<(SearchableItem, usize)>)
    requires
        pos < s@.len(),
        s@[pos as int] == 'A',
    ensures
        r matches Some(p) ==> ({
            &&& p.0@ is App
            &&& bounded_model(p.0@)
            &&& has_at(s@, pos as int, enc_item(p.0@))
            &&& p.1 == pos + enc_item(p.0@).len()
            &&& p.1 <= s@.len()
        }),
        forall|id: Seq<char>, name: Seq<char>, path: Seq<char>, usage: u32|
            bounded_model(ItemModel::App { id, name, path, usage }) && has_at(
                s@,
                pos as int,
                #[trigger] enc_item(ItemModel::App { id, name, path, usage }),
            ) ==> (r matches Some(p) && p.0@ == ItemModel::App { id, name, path, usage } && p.1
                == pos + enc_item(ItemModel::App { id, name, path, usage }).len()),
{
    proof {
        lemma_pow16_u64();
    }
    let len = s.unicode_len();
    let r1 = match parse_field(s, pos + 1) {
        Some(x) => x,
        None => {
            proof {
                assert forall|id: Seq<char>, name: Seq<char>, path: Seq<char>, usage: u32|
                    bounded_model(ItemModel::App { id, name, path, usage }) && has_at(
                        s@,
                        pos as int,
                        #[trigger] enc_item(ItemModel::App { id, name, path, usage }),
                    ) implies false by {
                    lemma_app_shape(s@, pos as int, id, name, path, usage);
                }
            }
            return None;
        },
    };
    let (fid, p2) = r1;
    let r2 = match parse_field(s, p2) {
        Some(x) => x,
        None => {
            proof {
                assert forall|id: Seq<char>, name: Seq<char>, path: Seq<char>, usage: u32|
                    bounded_model(ItemModel::App { id, name, path, usage }) && has_at(
                        s@,
                        pos as int,
                        #[trigger] enc_item(ItemModel::App { id, name, path, usage }),
                    ) implies false by {
                    lemma_app_shape(s@, pos as int, id, name, path, usage);
                }
            }
            return None;
        },
    };
    let (fname, p3) = r2;
    let r3 = match parse_field(s, p3) {
        Some(x) => x,
        None => {
            proof {
                assert forall|id: Seq<char>, name: Seq<char>, path: Seq<char>, usage: u32|
                    bounded_model(ItemModel::App { id, name, path, usage }) && has_at(
                        s@,
                        pos as int,
                        #[trigger] enc_item(ItemModel::App { id, name, path, usage }),
                    ) implies false by {
                    lemma_app_shape(s@, pos as int, id, name, path, usage);
                }
            }
            return None;
        },
    };
    let (fpath, p4) = r3;
    let un = match parse_u64_hex(s, p4) {
        Some(n) => n,
        None => {
            proof {
                assert forall|id: Seq<char>, name: Seq<char>, path: Seq<char>, usage: u32|
                    bounded_model(ItemModel::App { id, name, path, usage }) && has_at(
                        s@,
                        pos as int,
                        #[trigger] enc_item(ItemModel::App { id, name, path, usage }),
                    ) implies false by {
                    lemma_app_shape(s@, pos as int, id, name, path, usage);
                }
            }
            return None;
        },
    };
    if un > 0xffff_ffffu64 {
        proof {
            assert forall|id: Seq<char>, name: Seq<char>, path: Seq<char>, usage: u32|
                bounded_model(ItemModel::App { id, name, path, usage }) && has_at(
                    s@,
                    pos as int,
                    #[trigger] enc_item(ItemModel::App { id, name, path, usage }),
                ) implies false by {
                lemma_app_shape(s@, pos as int, id, name, path, usage);
            }
        }
        return None;
    }
    if p4 + 16 == len {
        proof {
            assert forall|id: Seq<char>, name: Seq<char>, path: Seq<char>, usage: u32|
                bounded_model(ItemModel::App { id, name, path, usage }) && has_at(
                    s@,
                    pos as int,
                    #[trigger] enc_item(ItemModel::App { id, name, path, usage }),
                ) implies false by {
                lemma_app_shape(s@, pos as int, id, name, path, usage);
            }
        }
        return None;
    }
    let nl = s.get_char(p4 + 16);
    if nl != '\n' {
        proof {
            assert forall|id: Seq<char>, name: Seq<char>, path: Seq<char>, usage: u32|
                bounded_model(ItemModel::App { id, name, path, usage }) && has_at(
                    s@,
                    pos as int,
                    #[trigger] enc_item(ItemModel::App { id, name, path, usage }),
                ) implies false by {
                lemma_app_shape(s@, pos as int, id, name, path, usage);
            }
        }
        return None;
    }
    let end = p4 + 17;
    let app = Application { id: fid, name: fname, path: fpath, usage_count: un as u32 };
    let it = SearchableItem::Application(app);
    let ghost made = it@;
    proof {
        lemma_app_shape(s@, pos as int, made->App_id, made->App_name, made->App_path, un as u32);
        assert(has_at(s@, pos as int, enc_item(made)));
        assert forall|id: Seq<char>, name: Seq<char>, path: Seq<char>, usage: u32|
            bounded_model(ItemModel::App { id, name, path, usage }) && has_at(
                s@,
                pos as int,
                #[trigger] enc_item(ItemModel::App { id, name, path, usage }),
            ) implies made == ItemModel::App { id, name, path, usage } && end == pos + enc_item(
            ItemModel::App { id, name, path, usage },
        ).len() by {
            lemma_app_shape(s@, pos as int, id, name, path, usage);
            assert(made =~= ItemModel::App { id, name, path, usage });
        }
    }
    Some((it, end))
}

#[verifier::rlimit(100)]
#[verifier::spinoff_prover]
fn parse_cmd_tail(
    s: &str,
    pos: usize,
    q: usize,
    fid: String,
    fname: String,
    fext: String,
) -> (r: Option<(SearchableItem, usize)>)
    requires
        pos < s@.len(),
        s@[pos as int] == 'C',
        fid@.len() < pow16(16),
        fname@.len() < pow16(16),
        fext@.len() < pow16(16),
        has_at(s@, pos + 1, enc_str(fid@)),
        has_at(s@, pos + 18 + fid@.len(), enc_str(fname@)),
        has_at(s@, pos + 35 + fid@.len() + fname@.len(), enc_str(fext@)),
        q == pos + 52 + fid@.len() + fname@.len() + fext@.len(),
        forall|t: Seq<char>|
            t.len() < pow16(16) && has_at(s@, pos + 1, #[trigger] enc_str(t)) ==> t == fid@,
        forall|t: Seq<char>|
            t.len() < pow16(16) && has_at(s@, pos + 18 + fid@.len(), #[trigger] enc_str(t)) ==> t
                == fname@,
        forall|t: Seq<char>|
            t.len() < pow16(16) && has_at(
                s@,
                pos + 35 + fid@.len() + fname@.len(),
                #[trigger] enc_str(t),
            ) ==> t == fext@,
    ensures
        r matches Some(p) ==> ({
            &&& p.0@ is Cmd
            &&& bounded_model(p.0@)
            &&& has_at(s@, pos as int, enc_item(p.0@))
            &&& p.1 == pos + enc_item(p.0@).len()
            &&& p.1 <= s@.len()
        }),
        forall|
            id: Seq<char>,
            name: Seq<char>,
            extension: Seq<char>,
            trigger_s: Seq<char>,
            kind: Seq<char>,
            usage: u32,
        |
            bounded_model(ItemModel::Cmd { id, name, extension, trigger: trigger_s, kind, usage })
                && has_at(
                s@,
                pos as int,
                #[trigger] enc_item(
                    ItemModel::Cmd { id, name, extension, trigger: trigger_s, kind, usage },
                ),
            ) ==> (r matches Some(p) && p.0@ == ItemModel::Cmd {
                id,
                name,
                extension,
                trigger: trigger_s,
                kind,
                usage,
            } && p.1 == pos + enc_item(
                ItemModel::Cmd { id, name, extension, trigger: trigger_s, kind, usage },
            ).len()),
{
    proof {
        lemma_pow16_u64();
    }
    let len = s.unicode_len();
    let r4 = match parse_field(s, q) {
        Some(x) => x,
        None => {
            proof {
                assert forall|
                    id: Seq<char>,
                    name: Seq<char>,
                    extension: Seq<char>,
                    trigger_s: Seq<char>,
                    kind: Seq<char>,
                    usage: u32,
                |
                    bounded_model(
                        ItemModel::Cmd { id, name, extension, trigger: trigger_s, kind, usage },
                    ) && has_at(
                        s@,
                        pos as int,
                        #[trigger] enc_item(
                            ItemModel::Cmd { id, name, extension, trigger: trigger_s, kind, usage },
                        ),
                    ) implies false by {
                    lemma_cmd_shape(s@, pos as int, id, name, extension, trigger_s, kind, usage);
                }
            }
            return None;
        },
    };
    let (ftrig, p5) = r4;
    let r5 = match parse_field(s, p5) {
        Some(x) => x,
        None => {
            proof {
                assert forall|
                    id: Seq<char>,
                    name: Seq<char>,
                    extension: Seq<char>,
                    trigger_s: Seq<char>,
                    kind: Seq<char>,
                    usage: u32,
                |
                    bounded_model(
                        ItemModel::Cmd { id, name, extension, trigger: trigger_s, kind, usage },
                    ) && has_at(
                        s@,
                        pos as int,
                        #[trigger] enc_item(
                            ItemModel::Cmd { id, name, extension, trigger: trigger_s, kind, usage },
                        ),
                    ) implies false by {
                    lemma_cmd_shape(s@, pos as int, id, name, extension, trigger_s, kind, usage);
                }
            }
            return None;
        },
    };
    let (fkind, p6) = r5;
    let un = match parse_u64_hex(s, p6) {
        Some(n) => n,
        None => {
            proof {
                assert forall|
                    id: Seq<char>,
                    name: Seq<char>,
                    extension: Seq<char>,
                    trigger_s: Seq<char>,
                    kind: Seq<char>,
                    usage: u32,
                |
                    bounded_model(
                        ItemModel::Cmd { id, name, extension, trigger: trigger_s, kind, usage },
                    ) && has_at(
                        s@,
                        pos as int,
                        #[trigger] enc_item(
                            ItemModel::Cmd { id, name, extension, trigger: trigger_s, kind, usage },
                        ),
                    ) implies false by {
                    lemma_cmd_shape(s@, pos as int, id, name, extension, trigger_s, kind, usage);
                }
            }
            return None;
        },
    };
    if un > 0xffff_ffffu64 || p6 + 16 == len {
        proof {
            assert forall|
                id: Seq<char>,
                name: Seq<char>,
                extension: Seq<char>,
                trigger_s: Seq<char>,
                kind: Seq<char>,
                usage: u32,
            |
                bounded_model(
                    ItemModel::Cmd { id, name, extension, trigger: trigger_s, kind, usage },
                ) && has_at(
                    s@,
                    pos as int,
                    #[trigger] enc_item(
                        ItemModel::Cmd { id, name, extension, trigger: trigger_s, kind, usage },
                    ),
                ) implies false by {
                lemma_cmd_shape(s@, pos as int, id, name, extension, trigger_s, kind, usage);
            }
        }
        return None;
    }
    let nl = s.get_char(p6 + 16);
    if nl != '\n' {
        proof {
            assert forall|
                id: Seq<char>,
                name: Seq<char>,
                extension: Seq<char>,
                trigger_s: Seq<char>,
                kind: Seq<char>,
                usage: u32,
            |
                bounded_model(
                    ItemModel::Cmd { id, name, extension, trigger: trigger_s, kind, usage },
                ) && has_at(
                    s@,
                    pos as int,
                    #[trigger] enc_item(
                        ItemModel::Cmd { id, name, extension, trigger: trigger_s, kind, usage },
                    ),
                ) implies false by {
                lemma_cmd_shape(s@, pos as int, id, name, extension, trigger_s, kind, usage);
            }
        }
        return None;
    }
    let end = p6 + 17;
    let cmd = Command {
        id: fid,
        name: fname,
        extension: fext,
        trigger: ftrig,
        command_type: fkind,
        usage_count: un as u32,
    };
    let it = SearchableItem::Command(cmd);
    let ghost made = it@;
    proof {
        lemma_cmd_shape(
            s@,
            pos as int,
            made->Cmd_id,
            made->Cmd_name,
            made->Cmd_extension,
            made->Cmd_trigger,
            made->Cmd_kind,
            un as u32,
        );
        assert(has_at(s@, pos as int, enc_item(made)));
        assert forall|
            id: Seq<char>,
            name: Seq<char>,
            extension: Seq<char>,
            trigger_s: Seq<char>,
            kind: Seq<char>,
            usage: u32,
        |
            bounded_model(ItemModel::Cmd { id, name, extension, trigger: trigger_s, kind, usage })
                && has_at(
                s@,
                pos as int,
                #[trigger] enc_item(
                    ItemModel::Cmd { id, name, extension, trigger: trigger_s, kind, usage },
                ),
            ) implies made == ItemModel::Cmd {
            id,
            name,
            extension,
            trigger: trigger_s,
            kind,
            usage,
        } && end == pos + enc_item(
            ItemModel::Cmd { id, name, extension, trigger: trigger_s, kind, usage },
        ).len() by {
            lemma_cmd_shape(s@, pos as int, id, name, extension, trigger_s, kind, usage);
            assert(made =~= ItemModel::Cmd {
                id,
                name,
                extension,
                trigger: trigger_s,
                kind,
                usage,
            });
        }
    }
    Some((it, end))
}

#[verifier::rlimit(100)]
#[verifier::spinoff_prover]
fn parse_cmd(s: &str, pos: usize) -> (r: Option<(SearchableItem, usize)>)
    requires
        pos < s@.len(),
        s@[pos as int] == 'C',
    ensures
        r matches Some(p) ==> ({
            &&& p.0@ is Cmd
            &&& bounded_model(p.0@)
            &&& has_at(s@, pos as int, enc_item(p.0@))
            &&& p.1 == pos + enc_item(p.0@).len()
            &&& p.1 <= s@.len()
        }),
        forall|
            id: Seq<char>,
            name: Seq<char>,
            extension: Seq<char>,
            trigger_s: Seq<char>,
            kind: Seq<char>,
            usage: u32,
        |
            bounded_model(ItemModel::Cmd { id, name, extension, trigger: trigger_s, kind, usage })
                && has_at(
                s@,
                pos as int,
                #[trigger] enc_item(
                    ItemModel::Cmd { id, name, extension, trigger: trigger_s, kind, usage },
                ),
            ) ==> (r matches Some(p) && p.0@ == ItemModel::Cmd {
                id,
                name,
                extension,
                trigger: trigger_s,
                kind,
                usage,
            } && p.1 == pos + enc_item(
                ItemModel::Cmd { id, name, extension, trigger: trigger_s, kind, usage },
            ).len()),
{
    proof {
        lemma_pow16_u64();
    }
    let len = s.unicode_len();
    assert(pos < len);
    let r1 = match parse_field(s, pos + 1) {
        Some(x) => x,
        None => {
            proof {
                assert forall|
                    id: Seq<char>,
                    name: Seq<char>,
                    extension: Seq<char>,
                    trigger_s: Seq<char>,
                    kind: Seq<char>,
                    usage: u32,
                |
                    bounded_model(
                        ItemModel::Cmd { id, name, extension, trigger: trigger_s, kind, usage },
                    ) && has_at(
                        s@,
                        pos as int,
                        #[trigger] enc_item(
                            ItemModel::Cmd { id, name, extension, trigger: trigger_s, kind, usage },
                        ),
                    ) implies false by {
                    lemma_cmd_shape(s@, pos as int, id, name, extension, trigger_s, kind, usage);
                }
            }
            return None;
        },
    };
    let (fid, p2) = r1;
    let r2 = match parse_field(s, p2) {
        Some(x) => x,
        None => {
            proof {
                assert forall|
                    id: Seq<char>,
                    name: Seq<char>,
                    extension: Seq<char>,
                    trigger_s: Seq<char>,
                    kind: Seq<char>,
                    usage: u32,
                |
                    bounded_model(
                        ItemModel::Cmd { id, name, extension, trigger: trigger_s, kind, usage },
                    ) && has_at(
                        s@,
                        pos as int,
                        #[trigger] enc_item(
                            ItemModel::Cmd { id, name, extension, trigger: trigger_s, kind, usage },
                        ),
                    ) implies false by {
                    lemma_cmd_shape(s@, pos as int, id, name, extension, trigger_s, kind, usage);
                }
            }
            return None;
        },
    };
    let (fname, p3) = r2;
    let r3 = match parse_field(s, p3) {
        Some(x) => x,
        None => {
            proof {
                assert forall|
                    id: Seq<char>,
                    name: Seq<char>,
                    extension: Seq<char>,
                    trigger_s: Seq<char>,
                    kind: Seq<char>,
                    usage: u32,
                |
                    bounded_model(
                        ItemModel::Cmd { id, name, extension, trigger: trigger_s, kind, usage },
                    ) && has_at(
                        s@,
                        pos as int,
                        #[trigger] enc_item(
                            ItemModel::Cmd { id, name, extension, trigger: trigger_s, kind, usage },
                        ),
                    ) implies false by {
                    lemma_cmd_shape(s@, pos as int, id, name, extension, trigger_s, kind, usage);
                }
            }
            return None;
        },
    };
    let (fext, p4) = r3;
    parse_cmd_tail(s, pos, p4, fid, fname, fext)
}

fn parse_item(s: &str, pos: usize) -> (r: Option<(SearchableItem, usize)>)
    ensures
        r matches Some(p) ==> ({
            &&& bounded_model(p.0@)
            &&& has_at(s@, pos as int, enc_item(p.0@))
            &&& p.1 == pos + enc_item(p.0@).len()
            &&& pos < p.1 <= s@.len()
        }),
        forall|m: ItemModel|
            bounded_model(m) && has_at(s@, pos as int, #[trigger] enc_item(m)) ==> (r matches Some(
                p,
            ) && p.0@ == m && p.1 == pos + enc_item(m).len()),
{
    let len = s.unicode_len();
    if pos >= len {
        proof {
            assert forall|m: ItemModel|
                bounded_model(m) && has_at(s@, pos as int, #[trigger] enc_item(m)) implies false by {
                match m {
                    ItemModel::App { id, name, path, usage } => {
                        lemma_app_shape(s@, pos as int, id, name, path, usage);
                    },
                    ItemModel::Cmd { id, name, extension, trigger, kind, usage } => {
                        lemma_cmd_shape(s@, pos as int, id, name, extension, trigger, kind, usage);
                    },
                }
            }
        }
        return None;
    }
    let tag = s.get_char(pos);
    if tag == 'A' {
        match parse_app(s, pos) {
            Some((a, end)) => {
                proof {
                    assert forall|m: ItemModel|
                        bounded_model(m) && has_at(s@, pos as int, #[trigger] enc_item(m)) implies a@
                        == m && end == pos + enc_item(m).len() by {
                        match m {
                            ItemModel::App { id, name, path, usage } => {},
                            ItemModel::Cmd { id, name, extension, trigger, kind, usage } => {
                                lemma_cmd_shape(
                                    s@,
                                    pos as int,
                                    id,
                                    name,
                                    extension,
                                    trigger,
                                    kind,
                                    usage,
                                );
                            },
                        }
                    }
                }
                Some((a, end))
            },
            None => {
                proof {
                    assert forall|m: ItemModel|
                        bounded_model(m) && has_at(s@, pos as int, #[trigger] enc_item(m)) implies false by {
                        match m {
                            ItemModel::App { id, name, path, usage } => {},
                            ItemModel::Cmd { id, name, extension, trigger, kind, usage } => {
                                lemma_cmd_shape(
                                    s@,
                                    pos as int,
                                    id,
                                    name,
                                    extension,
                                    trigger,
                                    kind,
                                    usage,
                                );
                            },
                        }
                    }
                }
                None
            },
        }
    } else if tag == 'C' {
        match parse_cmd(s, pos) {
            Some((c, end)) => {
                proof {
                    assert forall|m: ItemModel|
                        bounded_model(m) && has_at(s@, pos as int, #[trigger] enc_item(m)) implies c@
                        == m && end == pos + enc_item(m).len() by {
                        match m {
                            ItemModel::App { id, name, path, usage } => {
                                lemma_app_shape(s@, pos as int, id, name, path, usage);
                            },
                            ItemModel::Cmd { id, name, extension, trigger, kind, usage } => {},
                        }
                    }
                }
                Some((c, end))
            },
            None => {
                proof {
                    assert forall|m: ItemModel|
                        bounded_model(m) && has_at(s@, pos as int, #[trigger] enc_item(m)) implies false by {
                        match m {
                            ItemModel::App { id, name, path, usage } => {
                                lemma_app_shape(s@, pos as int, id, name, path, usage);
                            },
                            ItemModel::Cmd { id, name, extension, trigger, kind, usage } => {},
                        }
                    }
                }
                None
            },
        }
    } else {
        proof {
            assert forall|m: ItemModel|
                bounded_model(m) && has_at(s@, pos as int, #[trigger] enc_item(m)) implies false by {
                match m {
                    ItemModel::App { id, name, path, usage } => {
                        lemma_app_shape(s@, pos as int, id, name, path, usage);
                    },
                    ItemModel::Cmd { id, name, extension, trigger, kind, usage } => {
                        lemma_cmd_shape(s@, pos as int, id, name, extension, trigger, kind, usage);
                    },
                }
            }
        }
        None
    }
}

proof fn lemma_enc_catalog_cons(ms: Seq<ItemModel>, k: int)
    requires
        0 <= k < ms.len(),
    ensures
        enc_catalog(ms.subrange(k, ms.len() as int)) == enc_item(ms[k]) + enc_catalog(
            ms.subrange(k + 1, ms.len() as int),
        ),
{
    let t = ms.subrange(k, ms.len() as int);
    assert(t[0] == ms[k]);
    assert(t.drop_first() =~= ms.subrange(k + 1, ms.len() as int));
}

/// Reads a snapshot text back into the catalog items it encodes. Whatever
/// text some catalog wrote comes back as exactly that catalog; any other
/// text is rejected.
pub fn decode_items(s: &str) -> (r: Result<Vec<SearchableItem>, SearchError>)
    ensures
        r matches Ok(items) ==> enc_catalog(models(items@)) == s@ && bounded_models(
            models(items@),
        ),
        forall|ms: Seq<ItemModel>|
            bounded_models(ms) && s@ == #[trigger] enc_catalog(ms) ==> (r matches Ok(items)
                && models(items@) == ms),
{
    let n = s.unicode_len();
    let mut out: Vec<SearchableItem> = Vec::new();
    let mut pos: usize = 0;
    proof {
        assert(models(out@) =~= Seq::<ItemModel>::empty());
        assert(s@.subrange(0, 0) =~= enc_catalog(models(out@)));
        assert forall|ms: Seq<ItemModel>|
            bounded_models(ms) && s@ == #[trigger] enc_catalog(ms) implies exists|k: int|
            0 <= k <= ms.len() && models(out@) == ms.subrange(0, k) && s@.subrange(
                0,
                n as int,
            ) == enc_catalog(ms.subrange(k, ms.len() as int)) by {
            assert(models(out@) =~= ms.subrange(0, 0));
            assert(ms.subrange(0, ms.len() as int) =~= ms);
            assert(s@.subrange(0, n as int) =~= s@);
            assert(0 <= 0 <= ms.len() && models(out@) == ms.subrange(0, 0) && s@.subrange(
                0,
                n as int,
            ) == enc_catalog(ms.subrange(0, ms.len() as int)));
        }
    }
    while pos < n
        invariant
            pos <= n,
            n == s@.len(),
            enc_catalog(models(out@)) == s@.subrange(0, pos as int),
            bounded_models(models(out@)),
            forall|ms: Seq<ItemModel>|
                bounded_models(ms) && s@ == #[trigger] enc_catalog(ms) ==> exists|k: int|
                    0 <= k <= ms.len() && models(out@) == ms.subrange(0, k) && s@.subrange(
                        pos as int,
                        n as int,
                    ) == enc_catalog(ms.subrange(k, ms.len() as int)),
        decreases n - pos,
    {
        match parse_item(s, pos) {
            Some((it, end)) => {
                let ghost pre_out = out@;
                let ghost pre_pos = pos as int;
                out.push(it);
                pos = end;
                proof {
                    lemma_enc_catalog_snoc(models(pre_out), it@);
                    assert(models(out@) =~= models(pre_out).push(it@));
                    assert(s@.subrange(pre_pos, pos as int) == enc_item(it@));
                    assert(s@.subrange(0, pos as int) =~= s@.subrange(0, pre_pos) + s@.subrange(
                        pre_pos,
                        pos as int,
                    ));
                    assert forall|ms: Seq<ItemModel>|
                        bounded_models(ms) && s@ == #[trigger] enc_catalog(ms) implies exists|
                        k2: int,
                    |
                        0 <= k2 <= ms.len() && models(out@) == ms.subrange(0, k2) && s@.subrange(
                            pos as int,
                            n as int,
                        ) == enc_catalog(ms.subrange(k2, ms.len() as int)) by {
                        let k = choose|k: int|
                            0 <= k <= ms.len() && models(pre_out) == ms.subrange(0, k)
                                && s@.subrange(pre_pos, n as int) == enc_catalog(
                                ms.subrange(k, ms.len() as int),
                            );
                        if k == ms.len() {
                            assert(ms.subrange(k, ms.len() as int) =~= Seq::<ItemModel>::empty());
                            assert(s@.subrange(pre_pos, n as int).len() == 0);
                            assert(false);
                        } else {
                            lemma_enc_catalog_cons(ms, k);
                            let rest = enc_catalog(ms.subrange(k + 1, ms.len() as int));
                            assert(s@.subrange(pre_pos, n as int) == enc_item(ms[k]) + rest);
                            assert(has_at(s@, pre_pos, enc_item(ms[k]) + rest)) by {
                                assert((enc_item(ms[k]) + rest).len() == n - pre_pos);
                                assert(s@.subrange(pre_pos, pre_pos + (enc_item(ms[k])
                                    + rest).len()) == s@.subrange(pre_pos, n as int));
                            }
                            lemma_has_at_concat(s@, pre_pos, enc_item(ms[k]), rest);
                            assert(bounded_model(ms[k]));
                            assert(it@ == ms[k]);
                            assert(pos as int == pre_pos + enc_item(ms[k]).len());
                            assert(models(out@) =~= ms.subrange(0, k + 1)) by {
                                assert(ms.subrange(0, k + 1) =~= ms.subrange(0, k).push(ms[k]));
                            }
                            assert(s@.subrange(pos as int, n as int) == enc_catalog(
                                ms.subrange(k + 1, ms.len() as int),
                            )) by {
                                assert(has_at(s@, pre_pos + enc_item(ms[k]).len(), rest));
                                assert(pre_pos + enc_item(ms[k]).len() + rest.len() == n);
                                assert(s@.subrange(pos as int, pos as int + rest.len())
                                    == s@.subrange(pos as int, n as int));
                                lemma_enc_catalog_cons(ms, k);
                            }
                            assert(0 <= k + 1 <= ms.len() && models(out@) == ms.subrange(0, k + 1)
                                && s@.subrange(pos as int, n as int) == enc_catalog(
                                ms.subrange(k + 1, ms.len() as int),
                            ));
                        }
                    }
                }
            },
            None => {
                proof {
                    assert forall|ms: Seq<ItemModel>|
                        bounded_models(ms) && s@ == #[trigger] enc_catalog(ms) implies false by {
                        let k = choose|k: int|
                            0 <= k <= ms.len() && models(out@) == ms.subrange(0, k)
                                && s@.subrange(pos as int, n as int) == enc_catalog(
                                ms.subrange(k, ms.len() as int),
                            );
                        if k == ms.len() {
                            assert(ms.subrange(k, ms.len() as int) =~= Seq::<ItemModel>::empty());
                            assert(s@.subrange(pos as int, n as int).len() == 0);
                        } else {
                            lemma_enc_catalog_cons(ms, k);
                            let rest = enc_catalog(ms.subrange(k + 1, ms.len() as int));
                            assert(has_at(s@, pos as int, enc_item(ms[k]) + rest)) by {
                                assert((enc_item(ms[k]) + rest).len() == n - pos);
                                assert(s@.subrange(pos as int, pos as int + (enc_item(ms[k])
                                    + rest).len()) == s@.subrange(pos as int, n as int));
                            }
                            lemma_has_at_concat(s@, pos as int, enc_item(ms[k]), rest);
                            assert(bounded_model(ms[k]));
                        }
                    }
                }
                return Err(SearchError::Json(String::from_str("malformed snapshot")));
            },
        }
    }
    proof {
        assert(s@.subrange(0, n as int) =~= s@);
        assert forall|ms: Seq<ItemModel>|
            bounded_models(ms) && s@ == #[trigger] enc_catalog(ms) implies models(out@) == ms by {
            let k = choose|k: int|
                0 <= k <= ms.len() && models(out@) == ms.subrange(0, k) && s@.subrange(
                    pos as int,
                    n as int,
                ) == enc_catalog(ms.subrange(k, ms.len() as int));
            assert(s@.subrange(pos as int, n as int).len() == 0);
            lemma_enc_catalog_empty(ms.subrange(k, ms.len() as int));
            assert(k == ms.len());
            assert(ms.subrange(0, k) =~= ms);
        }
    }
    Ok(out)
}

} // verus!
