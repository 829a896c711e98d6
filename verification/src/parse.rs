//! The verified parser: character-level utilities and the line-by-line
//! conversion loop, each proved against the model.
use vstd::prelude::*;
use vstd::string::StrSliceExecFns;

use crate::doc::{
    ae_view, dv_view, entries_map, lemma_entries_map_dom, lemma_entries_map_get,
    lemma_entries_map_remove, lemma_pairs_map_remove, pairs_map, uniq_entries, uniq_pairs,
    wf_entries, wf_value, ArrElem, DocValue,
};
use crate::model::{
    block_key, find_from, key_of, line_step, lines_of, one_colon, raw_val_of, split_rec,
    strip_quotes, top_insert, trim_back, trim_front, trimmed, val_of, ws_char, ArrItem, JsonVal,
    ParseState,
};

verus! {

/// Whether `c` has the Unicode `White_Space` property.
pub fn is_ws(c: char) -> (r: bool)
    ensures
        r == ws_char(c),
{
    ('\u{0009}' <= c && c <= '\u{000D}') || c == ' ' || c == '\u{0085}' || c == '\u{00A0}'
        || c == '\u{1680}' || ('\u{2000}' <= c && c <= '\u{200A}') || c == '\u{2028}'
        || c == '\u{2029}' || c == '\u{202F}' || c == '\u{205F}' || c == '\u{3000}'
}

/// The characters of a string slice, as a vector.
pub fn chars_of(s: &str) -> (v: Vec<char>)
    ensures
        v@ == s@,
{
    let n = s.unicode_len();
    let mut v: Vec<char> = Vec::new();
    let mut i: usize = 0;
    while i < n
        invariant
            n == s@.len(),
            i <= n,
            v@ == s@.take(i as int),
        decreases n - i,
    {
        v.push(s.get_char(i));
        proof {
            assert(s@.take(i as int).push(s@[i as int]) =~= s@.take(i + 1 as int));
        }
        i = i + 1;
    }
    proof {
        assert(s@.take(n as int) =~= s@);
    }
    v
}

/// A copy of `v[a..b]`.
pub fn subvec(v: &Vec<char>, a: usize, b: usize) -> (r: Vec<char>)
    requires
        a <= b <= v@.len(),
    ensures
        r@ == v@.subrange(a as int, b as int),
{
    let mut r: Vec<char> = Vec::new();
    let mut i: usize = a;
    while i < b
        invariant
            a <= i <= b <= v@.len(),
            r@ == v@.subrange(a as int, i as int),
        decreases b - i,
    {
        r.push(v[i]);
        proof {
            assert(v@.subrange(a as int, i as int).push(v@[i as int]) =~= v@.subrange(
                a as int,
                i + 1 as int,
            ));
        }
        i = i + 1;
    }
    r
}

/// Whether two character vectors hold the same characters.
pub fn chars_eq(a: &Vec<char>, b: &Vec<char>) -> (r: bool)
    ensures
        r == (a@ == b@),
{
    if a.len() != b.len() {
        return false;
    }
    let mut i: usize = 0;
    while i < a.len()
        invariant
            a@.len() == b@.len(),
            i <= a@.len(),
            forall|j: int| 0 <= j < i ==> a@[j] == b@[j],
        decreases a@.len() - i,
    {
        if a[i] != b[i] {
            return false;
        }
        i = i + 1;
    }
    proof {
        assert(a@ =~= b@);
    }
    true
}

/// `v` with surrounding whitespace removed.
pub fn trim_exec(v: &Vec<char>) -> (r: Vec<char>)
    ensures
        r@ == trimmed(v@),
{
    proof {
        assert(v@.skip(0) =~= v@);
    }
    let mut a: usize = 0;
    while a < v.len() && is_ws(v[a])
        invariant
            a <= v@.len(),
            trim_front(v@) == trim_front(v@.skip(a as int)),
        decreases v@.len() - a,
    {
        proof {
            assert(v@.skip(a as int).skip(1) =~= v@.skip(a + 1 as int));
        }
        a = a + 1;
    }
    proof {
        assert(trim_front(v@.skip(a as int)) == v@.skip(a as int));
    }
    // Scan the trimmed-front remainder backwards for trailing whitespace.
    let ghost u = v@.skip(a as int);
    proof {
        assert(u.take(v@.len() - a as int) =~= u);
    }
    let mut b: usize = v.len();
    while b > a && is_ws(v[b - 1])
        invariant
            a <= b <= v@.len(),
            u == v@.skip(a as int),
            trim_back(u) == trim_back(u.take(b - a as int)),
        decreases b,
    {
        proof {
            assert(u.take(b - a as int).last() == v@[b - 1]);
            assert(u.take(b - a as int).drop_last() =~= u.take(b - 1 - a as int));
        }
        b = b - 1;
    }
    proof {
        assert(trim_back(u.take(b - a as int)) == u.take(b - a as int));
        assert(u.take(b - a as int) =~= v@.subrange(a as int, b as int));
    }
    subvec(v, a, b)
}

pub open spec fn views(q: Seq<Vec<char>>) -> Seq<Seq<char>> {
    q.map_values(|v: Vec<char>| v@)
}

/// The input split at `'\n'` separators, as `lines_of` describes.
pub fn split_lines_exec(s: &Vec<char>) -> (r: Vec<Vec<char>>)
    ensures
        r@.len() == lines_of(s@).len(),
        forall|i: int| 0 <= i < r@.len() ==> #[trigger] r@[i]@ == lines_of(s@)[i],
{
    let mut out: Vec<Vec<char>> = Vec::new();
    let mut cur: Vec<char> = Vec::new();
    let ghost mut line_start: int = 0;
    let mut i: usize = 0;
    proof {
        assert(cur@ =~= s@.subrange(0, 0));
    }
    while i < s.len()
        invariant
            0 <= line_start <= i <= s@.len(),
            cur@ == s@.subrange(line_start, i as int),
            lines_of(s@) == views(out@) + split_rec(s@, i as int, line_start),
        decreases s@.len() - i,
    {
        if s[i] == '\n' {
            proof {
                assert(split_rec(s@, i as int, line_start) == seq![
                    s@.subrange(line_start, i as int),
                ] + split_rec(s@, i + 1, i + 1));
                assert(views(out@.push(cur)) =~= views(out@).push(cur@));
                assert(views(out@) + (seq![cur@] + split_rec(s@, i + 1, i + 1)) =~= views(
                    out@.push(cur),
                ) + split_rec(s@, i + 1, i + 1));
            }
            out.push(cur);
            cur = Vec::new();
            proof {
                line_start = i + 1;
                assert(cur@ =~= s@.subrange(line_start, i + 1));
            }
        } else {
            cur.push(s[i]);
            proof {
                assert(split_rec(s@, i as int, line_start) == split_rec(s@, i + 1, line_start));
                assert(s@.subrange(line_start, i as int).push(s@[i as int]) =~= s@.subrange(
                    line_start,
                    i + 1,
                ));
            }
        }
        i = i + 1;
    }
    if cur.len() > 0 {
        proof {
            assert(split_rec(s@, i as int, line_start) == seq![
                s@.subrange(line_start, s@.len() as int),
            ]);
            assert(views(out@.push(cur)) =~= views(out@).push(cur@));
            assert(views(out@) + seq![cur@] =~= views(out@).push(cur@));
        }
        out.push(cur);
    } else {
        proof {
            assert(split_rec(s@, i as int, line_start) == Seq::<Seq<char>>::empty());
            assert(views(out@) + Seq::<Seq<char>>::empty() =~= views(out@));
        }
    }
    proof {
        assert(forall|j: int|
            0 <= j < out@.len() ==> #[trigger] out@[j]@ == views(out@)[j]);
    }
    out
}

/// One matching pair of surrounding double quotes removed, if present.
pub fn strip_quotes_exec(v: Vec<char>) -> (r: Vec<char>)
    ensures
        r@ == strip_quotes(v@),
{
    if v.len() >= 2 && v[0] == '"' && v[v.len() - 1] == '"' {
        subvec(&v, 1, v.len() - 1)
    } else {
        v
    }
}

/// Whether a nested block is open, and its key and fields if one is. At most
/// one block is open at a time; the state makes deeper nesting impossible.
pub enum BlockState {
    Idle,
    Open(Vec<char>, Vec<(Vec<char>, Vec<char>)>),
}

/// The converter's transient state.
pub struct Converter {
    pub root: Vec<(Vec<char>, DocValue)>,
    pub block: BlockState,
}

pub open spec fn conv_wf(st: Converter) -> bool {
    &&& uniq_entries(st.root@)
    &&& wf_entries(st.root@)
    &&& match st.block {
        BlockState::Open(_, ps) => uniq_pairs(ps@),
        BlockState::Idle => true,
    }
}

pub open spec fn conv_view(st: Converter) -> ParseState {
    ParseState {
        root: entries_map(st.root@),
        open_block: match st.block {
            BlockState::Idle => None,
            BlockState::Open(k, ps) => Some((k@, pairs_map(ps@))),
        },
    }
}

/// Insert a field into an open block's accumulator, overwriting any prior
/// value under the same key: fields inside a block are never array-promoted.
#[verifier::loop_isolation(false)]
pub fn obj_put(ps: &mut Vec<(Vec<char>, Vec<char>)>, key: Vec<char>, value: Vec<char>)
    requires
        uniq_pairs(old(ps)@),
    ensures
        uniq_pairs(final(ps)@),
        pairs_map(final(ps)@) == pairs_map(old(ps)@).insert(key@, value@),
{
    let ghost orig = ps@;
    let mut i: usize = 0;
    while i < ps.len()
        invariant
            ps@ == orig,
            i <= orig.len(),
            uniq_pairs(orig),
            forall|j: int| 0 <= j < i ==> orig[j].0@ != key@,
        decreases orig.len() - i,
    {
        let hit = chars_eq(&ps[i].0, &key);
        if hit {
            proof {
                lemma_pairs_map_remove(orig, i as int);
            }
            let _replaced = ps.remove(i);
            ps.push((key, value));
            proof {
                assert(ps@.drop_last() =~= orig.remove(i as int));
                assert(pairs_map(ps@) == pairs_map(orig.remove(i as int)).insert(key@, value@));
                assert(pairs_map(orig).remove(orig[i as int].0@).insert(key@, value@)
                    =~= pairs_map(orig).insert(key@, value@));
                assert forall|a: int, b: int| 0 <= a < b < ps@.len() implies ps@[a].0@
                    != ps@[b].0@ by {
                    if b == ps@.len() - 1 {
                        if a < i {
                            assert(ps@[a] == orig[a]);
                        } else {
                            assert(ps@[a] == orig[a + 1]);
                        }
                    } else {
                        if a < i {
                            assert(ps@[a] == orig[a]);
                        } else {
                            assert(ps@[a] == orig[a + 1]);
                        }
                        if b < i {
                            assert(ps@[b] == orig[b]);
                        } else {
                            assert(ps@[b] == orig[b + 1]);
                        }
                    }
                }
            }
            return ;
        }
        i = i + 1;
    }
    ps.push((key, value));
    proof {
        assert(ps@.drop_last() =~= orig);
    }
}

/// Insert a top-level entry, overwriting any prior value under the same key.
/// This is how a closed block lands in the root.
#[verifier::loop_isolation(false)]
pub fn put_entry(root: &mut Vec<(Vec<char>, DocValue)>, key: Vec<char>, value: DocValue)
    requires
        uniq_entries(old(root)@),
        wf_entries(old(root)@),
        wf_value(value),
    ensures
        uniq_entries(final(root)@),
        wf_entries(final(root)@),
        entries_map(final(root)@) == entries_map(old(root)@).insert(key@, dv_view(value)),
{
    let ghost orig = root@;
    let ghost v = value;
    let mut i: usize = 0;
    while i < root.len()
        invariant
            root@ == orig,
            i <= orig.len(),
            uniq_entries(orig),
            wf_entries(orig),
            forall|j: int| 0 <= j < i ==> orig[j].0@ != key@,
        decreases orig.len() - i,
    {
        let hit = chars_eq(&root[i].0, &key);
        if hit {
            proof {
                lemma_entries_map_remove(orig, i as int);
            }
            let _replaced = root.remove(i);
            root.push((key, value));
            proof {
                assert(root@.drop_last() =~= orig.remove(i as int));
                assert(entries_map(root@) == entries_map(orig.remove(i as int)).insert(
                    key@,
                    dv_view(v),
                ));
                assert(entries_map(orig).remove(orig[i as int].0@).insert(key@, dv_view(v))
                    =~= entries_map(orig).insert(key@, dv_view(v)));
                assert forall|a: int, b: int| 0 <= a < b < root@.len() implies root@[a].0@
                    != root@[b].0@ by {
                    if a < i {
                        assert(root@[a] == orig[a]);
                    } else if a < root@.len() - 1 {
                        assert(root@[a] == orig[a + 1]);
                    }
                    if b < i {
                        assert(root@[b] == orig[b]);
                    } else if b < root@.len() - 1 {
                        assert(root@[b] == orig[b + 1]);
                    }
                }
                assert forall|j: int| 0 <= j < root@.len() implies wf_value(
                    #[trigger] root@[j].1,
                ) by {
                    if j < i {
                        assert(root@[j] == orig[j]);
                    } else if j < root@.len() - 1 {
                        assert(root@[j] == orig[j + 1]);
                    }
                }
            }
            return ;
        }
        i = i + 1;
    }
    root.push((key, value));
    proof {
        assert(root@.drop_last() =~= orig);
        assert(forall|j: int| 0 <= j < orig.len() ==> root@[j] == orig[j]);
    }
}

/// Insert a string under a top-level key: a fresh key gets the string, a
/// repeated key collapses into an array holding every value in order.
#[verifier::loop_isolation(false)]
pub fn top_insert_exec(root: &mut Vec<(Vec<char>, DocValue)>, key: Vec<char>, value: Vec<char>)
    requires
        uniq_entries(old(root)@),
        wf_entries(old(root)@),
    ensures
        uniq_entries(final(root)@),
        wf_entries(final(root)@),
        entries_map(final(root)@) == top_insert(entries_map(old(root)@), key@, value@),
{
    let ghost orig = root@;
    let ghost valv = value@;
    let mut i: usize = 0;
    while i < root.len()
        invariant
            root@ == orig,
            i <= orig.len(),
            uniq_entries(orig),
            wf_entries(orig),
            forall|j: int| 0 <= j < i ==> orig[j].0@ != key@,
        decreases orig.len() - i,
    {
        let hit = chars_eq(&root[i].0, &key);
        if hit {
            proof {
                lemma_entries_map_get(orig, i as int);
                lemma_entries_map_remove(orig, i as int);
                assert(wf_value(orig[i as int].1));
            }
            let entry = root.remove(i);
            let k0 = entry.0;
            let ghost old_dv = entry.1;
            let new_val: DocValue = match entry.1 {
                DocValue::Str(s) => {
                    let mut items: Vec<ArrElem> = Vec::new();
                    items.push(ArrElem::Str(s));
                    items.push(ArrElem::Str(value));
                    proof {
                        assert(items@.map_values(|e: ArrElem| ae_view(e)) =~= seq![
                            ArrItem::Str(s@),
                            ArrItem::Str(valv),
                        ]);
                    }
                    DocValue::Arr(items)
                },
                DocValue::Arr(items0) => {
                    let ghost its0 = items0@;
                    let mut items = items0;
                    items.push(ArrElem::Str(value));
                    proof {
                        assert(items@.map_values(|e: ArrElem| ae_view(e)) =~= its0.map_values(
                            |e: ArrElem| ae_view(e),
                        ).push(ArrItem::Str(valv)));
                    }
                    DocValue::Arr(items)
                },
                DocValue::Obj(ps) => {
                    let ghost psv = ps@;
                    let mut items: Vec<ArrElem> = Vec::new();
                    items.push(ArrElem::Obj(ps));
                    items.push(ArrElem::Str(value));
                    proof {
                        assert(items@.map_values(|e: ArrElem| ae_view(e)) =~= seq![
                            ArrItem::Obj(pairs_map(psv)),
                            ArrItem::Str(valv),
                        ]);
                    }
                    DocValue::Arr(items)
                },
            };
            root.push((k0, new_val));
            proof {
                assert(root@.drop_last() =~= orig.remove(i as int));
                assert(entries_map(root@) == entries_map(orig.remove(i as int)).insert(
                    k0@,
                    dv_view(new_val),
                ));
                assert(entries_map(orig).remove(key@).insert(key@, dv_view(new_val))
                    =~= entries_map(orig).insert(key@, dv_view(new_val)));
                assert(entries_map(orig)[key@] == dv_view(old_dv));
                assert forall|a: int, b: int| 0 <= a < b < root@.len() implies root@[a].0@
                    != root@[b].0@ by {
                    if a < i {
                        assert(root@[a] == orig[a]);
                    } else if a < root@.len() - 1 {
                        assert(root@[a] == orig[a + 1]);
                    }
                    if b < i {
                        assert(root@[b] == orig[b]);
                    } else if b < root@.len() - 1 {
                        assert(root@[b] == orig[b + 1]);
                    }
                }
                assert forall|j: int| 0 <= j < root@.len() implies wf_value(
                    #[trigger] root@[j].1,
                ) by {
                    if j < i {
                        assert(root@[j] == orig[j]);
                    } else if j < root@.len() - 1 {
                        assert(root@[j] == orig[j + 1]);
                    }
                }
            }
            return ;
        }
        i = i + 1;
    }
    proof {
        lemma_entries_map_dom(orig);
        assert(!entries_map(orig).dom().contains(key@));
    }
    root.push((key, DocValue::Str(value)));
    proof {
        assert(root@.drop_last() =~= orig);
        assert(forall|j: int| 0 <= j < orig.len() ==> root@[j] == orig[j]);
    }
}

/// Apply one input line to the converter state, as `line_step` describes.
#[verifier::loop_isolation(false)]
pub fn step_line(st: Converter, line: &Vec<char>) -> (out: Converter)
    requires
        conv_wf(st),
    ensures
        conv_wf(out),
        conv_view(out) == line_step(conv_view(st), line@),
{
    let t = trim_exec(line);
    let ghost tv = t@;
    if t.len() == 0 {
        return st;
    }
    if t[t.len() - 1] == '{' {
        let mut key_raw = t;
        key_raw.pop();
        proof {
            assert(key_raw@ =~= tv.drop_last());
        }
        let bkey = trim_exec(&key_raw);
        return Converter { root: st.root, block: BlockState::Open(bkey, Vec::new()) };
    }
    if t.len() == 1 && t[0] == '}' {
        match st.block {
            BlockState::Open(bk, ps) => {
                let mut root = st.root;
                put_entry(&mut root, bk, DocValue::Obj(ps));
                return Converter { root, block: BlockState::Idle };
            },
            BlockState::Idle => {
                return Converter { root: st.root, block: BlockState::Idle };
            },
        }
    }
    // Find the first colon, if any.
    let mut c1: usize = 0;
    while c1 < t.len() && t[c1] != ':'
        invariant
            c1 <= tv.len(),
            find_from(tv, ':', 0) == find_from(tv, ':', c1 as int),
        decreases tv.len() - c1,
    {
        proof {
            assert(find_from(tv, ':', c1 as int) == find_from(tv, ':', c1 + 1));
        }
        c1 = c1 + 1;
    }
    if c1 == t.len() {
        // No colon: the line is malformed and contributes nothing.
        proof {
            assert(find_from(tv, ':', 0) == tv.len());
        }
        return st;
    }
    proof {
        assert(find_from(tv, ':', 0) == c1 as int);
    }
    // Check that no second colon follows.
    let mut c2: usize = c1 + 1;
    while c2 < t.len() && t[c2] != ':'
        invariant
            c1 + 1 <= c2 <= tv.len(),
            find_from(tv, ':', c1 + 1) == find_from(tv, ':', c2 as int),
        decreases tv.len() - c2,
    {
        proof {
            assert(find_from(tv, ':', c2 as int) == find_from(tv, ':', c2 + 1));
        }
        c2 = c2 + 1;
    }
    if c2 < t.len() {
        // A second colon: the line is malformed and contributes nothing.
        proof {
            assert(find_from(tv, ':', c1 + 1) == c2 as int);
            assert(!one_colon(tv));
        }
        return st;
    }
    proof {
        assert(find_from(tv, ':', c1 + 1) == tv.len());
        assert(one_colon(tv));
    }
    let key_part = subvec(&t, 0, c1);
    let key = trim_exec(&key_part);
    proof {
        assert(tv.subrange(0, c1 as int) =~= tv.take(c1 as int));
        assert(key@ == key_of(tv));
    }
    let val_part = subvec(&t, c1 + 1, t.len());
    let rawval = trim_exec(&val_part);
    proof {
        assert(tv.subrange(c1 + 1, tv.len() as int) =~= tv.skip(c1 + 1));
        assert(rawval@ == raw_val_of(tv));
    }
    if key.len() == 0 || rawval.len() == 0 {
        // An empty key or value: the line is skipped.
        return st;
    }
    let value = strip_quotes_exec(rawval);
    proof {
        assert(value@ == val_of(tv));
    }
    match st.block {
        BlockState::Open(bk, ps) => {
            let mut fields = ps;
            obj_put(&mut fields, key, value);
            Converter { root: st.root, block: BlockState::Open(bk, fields) }
        },
        BlockState::Idle => {
            let mut root = st.root;
            top_insert_exec(&mut root, key, value);
            Converter { root, block: BlockState::Idle }
        },
    }
}

} // verus!
