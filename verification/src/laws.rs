//! General properties of the conversion, stated over the model and proved.
use vstd::prelude::*;

use crate::jsonout::empty_doc;
use crate::model::{
    blank_line, block_key, close_line, doc_of, find_from, init_state, key_of, kv_line,
    lemma_run_append, lemma_run_snoc, line_step, lines_of, open_line, run_lines, strip_quotes,
    top_insert, trimmed, val_of, ArrItem, JsonVal, ParseState,
};

verus! {

/// On a well-formed key/value line, the step adds the field: to the open
/// block when one is open, else to the root with array promotion.
pub proof fn lemma_step_kv(st: ParseState, raw: Seq<char>)
    requires
        kv_line(raw),
    ensures
        line_step(st, raw) == (match st.open_block {
            Some((bk, fields)) => ParseState {
                root: st.root,
                open_block: Some(
                    (bk, fields.insert(key_of(trimmed(raw)), val_of(trimmed(raw)))),
                ),
            },
            None => ParseState {
                root: top_insert(st.root, key_of(trimmed(raw)), val_of(trimmed(raw))),
                open_block: None,
            },
        }),
{
    let t = trimmed(raw);
    if t.len() == 1 && t[0] == '}' {
        assert(find_from(t, ':', 0) == find_from(t, ':', 1));
        assert(find_from(t, ':', 1) == 1);
        assert(false);
    }
}

/// A line that is non-blank yet matches no shape (it does not open or close
/// a block and does not hold exactly one colon with a non-empty key and
/// value on its sides) contributes nothing to the state.
pub proof fn lemma_malformed_line_skipped(st: ParseState, raw: Seq<char>)
    requires
        !blank_line(raw),
        !open_line(raw),
        !close_line(raw),
        !kv_line(raw),
    ensures
        line_step(st, raw) == st,
{
}

/// Quote-stripping removes exactly one matching pair of surrounding double
/// quotes, and only when both ends hold one; anything else is untouched.
pub proof fn lemma_strip_quotes(v: Seq<char>)
    ensures
        v.len() >= 2 && v[0] == '"' && v.last() == '"' ==> strip_quotes(v) == v.subrange(
            1,
            v.len() - 1,
        ),
        !(v.len() >= 2 && v[0] == '"' && v.last() == '"') ==> strip_quotes(v) == v,
{
}

/// While a block is open, lines other than its closer never touch the root,
/// and the block stays open.
pub proof fn lemma_no_close_keeps_root(st: ParseState, ls: Seq<Seq<char>>)
    requires
        st.open_block is Some,
        forall|i: int| 0 <= i < ls.len() ==> !close_line(#[trigger] ls[i]),
    ensures
        run_lines(st, ls).root == st.root,
        run_lines(st, ls).open_block is Some,
    decreases ls.len(),
{
    if ls.len() > 0 {
        let st1 = line_step(st, ls[0]);
        assert(!close_line(ls[0]));
        assert(st1.root == st.root && st1.open_block is Some);
        assert(forall|i: int| 0 <= i < ls.skip(1).len() ==> ls.skip(1)[i] == ls[i + 1]);
        lemma_no_close_keeps_root(st1, ls.skip(1));
    }
}

/// An unclosed block contributes nothing: after a block opener, if no later
/// line closes it, the root is what it was before the opener.
pub proof fn lemma_unclosed_block_dropped(st: ParseState, opener: Seq<char>, rest: Seq<Seq<char>>)
    requires
        open_line(opener),
        forall|i: int| 0 <= i < rest.len() ==> !close_line(#[trigger] rest[i]),
    ensures
        run_lines(st, seq![opener] + rest).root == st.root,
    decreases rest.len(),
{
    let all = seq![opener] + rest;
    assert(all[0] == opener);
    assert(all.skip(1) =~= rest);
    let st1 = line_step(st, opener);
    assert(st1.root == st.root && st1.open_block is Some);
    lemma_no_close_keeps_root(st1, rest);
}

/// The fields an open block accumulates over a sequence of lines: each
/// well-formed key/value line inserts, overwriting, and the rest do nothing.
pub open spec fn obj_run(m: Map<Seq<char>, Seq<char>>, ls: Seq<Seq<char>>) -> Map<
    Seq<char>,
    Seq<char>,
>
    decreases ls.len(),
{
    if ls.len() == 0 {
        m
    } else {
        obj_run(
            if kv_line(ls[0]) {
                m.insert(key_of(trimmed(ls[0])), val_of(trimmed(ls[0])))
            } else {
                m
            },
            ls.skip(1),
        )
    }
}

/// Running blank and key/value lines with a block open only accumulates the
/// block's fields.
pub proof fn lemma_run_inside_block(
    root: Map<Seq<char>, JsonVal>,
    bk: Seq<char>,
    fields: Map<Seq<char>, Seq<char>>,
    ls: Seq<Seq<char>>,
)
    requires
        forall|i: int| 0 <= i < ls.len() ==> blank_line(#[trigger] ls[i]) || kv_line(ls[i]),
    ensures
        run_lines(ParseState { root, open_block: Some((bk, fields)) }, ls) == (ParseState {
            root,
            open_block: Some((bk, obj_run(fields, ls))),
        }),
    decreases ls.len(),
{
    if ls.len() > 0 {
        let st = ParseState { root, open_block: Some((bk, fields)) };
        assert(forall|i: int| 0 <= i < ls.skip(1).len() ==> ls.skip(1)[i] == ls[i + 1]);
        if blank_line(ls[0]) {
            assert(line_step(st, ls[0]) == st);
            lemma_run_inside_block(root, bk, fields, ls.skip(1));
        } else {
            lemma_step_kv(st, ls[0]);
            lemma_run_inside_block(
                root,
                bk,
                fields.insert(key_of(trimmed(ls[0])), val_of(trimmed(ls[0]))),
                ls.skip(1),
            );
        }
    }
}

/// A well-formed block span `k {`, fields, `}` puts exactly one object under
/// the block's key; fields inside it are overwritten, never array-promoted.
pub proof fn lemma_nested_block(
    st: ParseState,
    opener: Seq<char>,
    inner: Seq<Seq<char>>,
    closer: Seq<char>,
)
    requires
        open_line(opener),
        close_line(closer),
        forall|i: int| 0 <= i < inner.len() ==> blank_line(#[trigger] inner[i]) || kv_line(
            inner[i],
        ),
    ensures
        run_lines(st, seq![opener] + inner + seq![closer]) == (ParseState {
            root: st.root.insert(block_key(opener), JsonVal::Obj(obj_run(Map::empty(), inner))),
            open_block: None,
        }),
{
    let all = seq![opener] + inner + seq![closer];
    assert(all[0] == opener);
    assert(all.skip(1) =~= inner + seq![closer]);
    let st1 = line_step(st, opener);
    assert(st1 == (ParseState {
        root: st.root,
        open_block: Some((block_key(opener), Map::<Seq<char>, Seq<char>>::empty())),
    }));
    lemma_run_append(st1, inner, seq![closer]);
    lemma_run_inside_block(st.root, block_key(opener), Map::empty(), inner);
    let st2 = run_lines(st1, inner);
    assert(seq![closer].skip(1) =~= Seq::<Seq<char>>::empty());
    assert(seq![closer][0] == closer);
    assert(run_lines(line_step(st2, closer), Seq::<Seq<char>>::empty()) == line_step(st2, closer));
    assert(run_lines(st2, seq![closer]) == line_step(st2, closer));
    let t = trimmed(closer);
    assert(t.len() == 1 && t[0] == '}' && t.last() == '}');
}

/// Fields an obj_run never writes keep their standing in the map.
pub proof fn lemma_obj_run_untouched(m: Map<Seq<char>, Seq<char>>, ls: Seq<Seq<char>>, k: Seq<char>)
    requires
        forall|i: int|
            0 <= i < ls.len() ==> !(kv_line(#[trigger] ls[i]) && key_of(trimmed(ls[i])) == k),
    ensures
        obj_run(m, ls).dom().contains(k) == m.dom().contains(k),
        m.dom().contains(k) ==> obj_run(m, ls)[k] == m[k],
    decreases ls.len(),
{
    if ls.len() > 0 {
        assert(forall|i: int| 0 <= i < ls.skip(1).len() ==> ls.skip(1)[i] == ls[i + 1]);
        if kv_line(ls[0]) {
            lemma_obj_run_untouched(
                m.insert(key_of(trimmed(ls[0])), val_of(trimmed(ls[0]))),
                ls.skip(1),
                k,
            );
        } else {
            lemma_obj_run_untouched(m, ls.skip(1), k);
        }
    }
}

/// When a key repeats inside a block, the last occurrence wins.
pub proof fn lemma_obj_run_last_wins(m: Map<Seq<char>, Seq<char>>, ls: Seq<Seq<char>>, j: int)
    requires
        0 <= j < ls.len(),
        kv_line(ls[j]),
        forall|i: int|
            j < i < ls.len() ==> !(kv_line(#[trigger] ls[i]) && key_of(trimmed(ls[i])) == key_of(
                trimmed(ls[j]),
            )),
    ensures
        obj_run(m, ls).dom().contains(key_of(trimmed(ls[j]))),
        obj_run(m, ls)[key_of(trimmed(ls[j]))] == val_of(trimmed(ls[j])),
    decreases ls.len(),
{
    assert(forall|i: int| 0 <= i < ls.skip(1).len() ==> ls.skip(1)[i] == ls[i + 1]);
    if j == 0 {
        let k = key_of(trimmed(ls[0]));
        lemma_obj_run_untouched(m.insert(k, val_of(trimmed(ls[0]))), ls.skip(1), k);
    } else {
        if kv_line(ls[0]) {
            lemma_obj_run_last_wins(
                m.insert(key_of(trimmed(ls[0])), val_of(trimmed(ls[0]))),
                ls.skip(1),
                j - 1,
            );
        } else {
            lemma_obj_run_last_wins(m, ls.skip(1), j - 1);
        }
    }
}

/// Lines that all carry one key collapse into that key's entry: one line
/// gives the string, repeats give the array of every value in line order.
pub proof fn lemma_repeated_key(ls: Seq<Seq<char>>, k: Seq<char>)
    requires
        ls.len() >= 1,
        forall|i: int|
            0 <= i < ls.len() ==> kv_line(#[trigger] ls[i]) && key_of(trimmed(ls[i])) == k,
    ensures
        run_lines(init_state(), ls).open_block is None,
        run_lines(init_state(), ls).root.dom() =~= set![k],
        run_lines(init_state(), ls).root[k] == (if ls.len() == 1 {
            JsonVal::Str(val_of(trimmed(ls[0])))
        } else {
            JsonVal::Arr(
                Seq::new(ls.len(), |i: int| ArrItem::Str(val_of(trimmed(ls[i])))),
            )
        }),
    decreases ls.len(),
{
    if ls.len() == 1 {
        assert(ls.skip(1) =~= Seq::<Seq<char>>::empty());
        lemma_step_kv(init_state(), ls[0]);
        assert(run_lines(line_step(init_state(), ls[0]), Seq::<Seq<char>>::empty()) == line_step(
            init_state(),
            ls[0],
        ));
        assert(run_lines(init_state(), ls) == line_step(init_state(), ls[0]));
        assert(!init_state().root.dom().contains(k));
    } else {
        let d = ls.drop_last();
        assert(forall|i: int| 0 <= i < d.len() ==> d[i] == ls[i]);
        lemma_repeated_key(d, k);
        lemma_run_snoc(init_state(), ls);
        let prev = run_lines(init_state(), d);
        lemma_step_kv(prev, ls.last());
        assert(ls.last() == ls[ls.len() - 1]);
        assert(prev.root.dom().contains(k));
        let vlast = val_of(trimmed(ls[ls.len() - 1]));
        if ls.len() == 2 {
            assert(prev.root[k] == JsonVal::Str(val_of(trimmed(ls[0]))));
            assert(seq![
                ArrItem::Str(val_of(trimmed(ls[0]))),
                ArrItem::Str(vlast),
            ] =~= Seq::new(ls.len(), |i: int| ArrItem::Str(val_of(trimmed(ls[i])))));
        } else {
            assert(prev.root[k] == JsonVal::Arr(
                Seq::new(d.len(), |i: int| ArrItem::Str(val_of(trimmed(d[i])))),
            ));
            assert(Seq::new(d.len(), |i: int| ArrItem::Str(val_of(trimmed(d[i])))).push(
                ArrItem::Str(vlast),
            ) =~= Seq::new(ls.len(), |i: int| ArrItem::Str(val_of(trimmed(ls[i])))));
        }
        assert(run_lines(init_state(), ls).root.dom() =~= set![k]);
    }
}

/// Running blank and key/value lines with pairwise-distinct keys, outside
/// any block, writes exactly those fields as strings.
pub proof fn lemma_flat_run(st: ParseState, ls: Seq<Seq<char>>)
    requires
        st.open_block is None,
        forall|i: int| 0 <= i < ls.len() ==> blank_line(#[trigger] ls[i]) || kv_line(ls[i]),
        forall|i: int, j: int|
            0 <= i < j < ls.len() && kv_line(ls[i]) && kv_line(ls[j]) ==> key_of(trimmed(ls[i]))
                != key_of(trimmed(ls[j])),
        forall|i: int|
            0 <= i < ls.len() && kv_line(#[trigger] ls[i]) ==> !st.root.dom().contains(
                key_of(trimmed(ls[i])),
            ),
    ensures
        run_lines(st, ls).open_block is None,
        forall|i: int|
            0 <= i < ls.len() && kv_line(#[trigger] ls[i]) ==> run_lines(
                st,
                ls,
            ).root.dom().contains(key_of(trimmed(ls[i]))) && run_lines(st, ls).root[key_of(
                trimmed(ls[i]),
            )] == JsonVal::Str(val_of(trimmed(ls[i]))),
        forall|k: Seq<char>|
            #[trigger] run_lines(st, ls).root.dom().contains(k) ==> st.root.dom().contains(k)
                || exists|i: int|
                0 <= i < ls.len() && kv_line(#[trigger] ls[i]) && key_of(trimmed(ls[i])) == k,
        forall|k: Seq<char>|
            #[trigger] st.root.dom().contains(k) ==> run_lines(st, ls).root.dom().contains(k)
                && run_lines(st, ls).root[k] == st.root[k],
    decreases ls.len(),
{
    if ls.len() > 0 {
        assert(forall|i: int| 0 <= i < ls.skip(1).len() ==> ls.skip(1)[i] == ls[i + 1]);
        let fin = run_lines(st, ls);
        if blank_line(ls[0]) {
            assert(line_step(st, ls[0]) == st);
            lemma_flat_run(st, ls.skip(1));
            assert forall|k: Seq<char>| #[trigger] st.root.dom().contains(k) implies
                fin.root.dom().contains(k) && fin.root[k] == st.root[k] by {
                assert(run_lines(st, ls.skip(1)).root.dom().contains(k));
            }
            assert forall|i: int|
                0 <= i < ls.len() && kv_line(#[trigger] ls[i]) implies fin.root.dom().contains(
                key_of(trimmed(ls[i])),
            ) && fin.root[key_of(trimmed(ls[i]))] == JsonVal::Str(val_of(trimmed(ls[i]))) by {
                assert(!blank_line(ls[i]));
                assert(i >= 1);
                assert(ls.skip(1)[i - 1] == ls[i]);
            }
            assert forall|k: Seq<char>| #[trigger] fin.root.dom().contains(k) implies
                st.root.dom().contains(k) || exists|i: int|
                0 <= i < ls.len() && kv_line(#[trigger] ls[i]) && key_of(trimmed(ls[i])) == k by {
                if !st.root.dom().contains(k) {
                    let i = choose|i: int|
                        0 <= i < ls.skip(1).len() && kv_line(#[trigger] ls.skip(1)[i]) && key_of(
                            trimmed(ls.skip(1)[i]),
                        ) == k;
                    assert(kv_line(ls[i + 1]) && key_of(trimmed(ls[i + 1])) == k);
                }
            }
        } else {
            lemma_step_kv(st, ls[0]);
            let k0 = key_of(trimmed(ls[0]));
            let v0 = val_of(trimmed(ls[0]));
            let st1 = ParseState { root: st.root.insert(k0, JsonVal::Str(v0)), open_block: None };
            assert(line_step(st, ls[0]) == st1);
            lemma_flat_run(st1, ls.skip(1));
            assert forall|k: Seq<char>| #[trigger] st.root.dom().contains(k) implies
                fin.root.dom().contains(k) && fin.root[k] == st.root[k] by {
                assert(k != k0);
                assert(st1.root.dom().contains(k));
                assert(st1.root[k] == st.root[k]);
            }
            assert forall|i: int|
                0 <= i < ls.len() && kv_line(#[trigger] ls[i]) implies fin.root.dom().contains(
                key_of(trimmed(ls[i])),
            ) && fin.root[key_of(trimmed(ls[i]))] == JsonVal::Str(val_of(trimmed(ls[i]))) by {
                if i == 0 {
                    assert(st1.root.dom().contains(k0));
                } else {
                    assert(ls.skip(1)[i - 1] == ls[i]);
                }
            }
            assert forall|k: Seq<char>| #[trigger] fin.root.dom().contains(k) implies
                st.root.dom().contains(k) || exists|i: int|
                0 <= i < ls.len() && kv_line(#[trigger] ls[i]) && key_of(trimmed(ls[i])) == k by {
                if !st.root.dom().contains(k) {
                    if k == k0 {
                        assert(kv_line(ls[0]) && key_of(trimmed(ls[0])) == k);
                    } else {
                        assert(!st1.root.dom().contains(k));
                        let i = choose|i: int|
                            0 <= i < ls.skip(1).len() && kv_line(#[trigger] ls.skip(1)[i])
                                && key_of(trimmed(ls.skip(1)[i])) == k;
                        assert(kv_line(ls[i + 1]) && key_of(trimmed(ls[i + 1])) == k);
                    }
                }
            }
        }
    }
}

/// Flat input with pairwise-distinct keys denotes an object with exactly
/// those keys, each mapped to its quote-stripped string value.
pub proof fn lemma_flat_unique_input(s: Seq<char>)
    requires
        forall|i: int|
            0 <= i < lines_of(s).len() ==> blank_line(#[trigger] lines_of(s)[i]) || kv_line(
                lines_of(s)[i],
            ),
        forall|i: int, j: int|
            0 <= i < j < lines_of(s).len() && kv_line(lines_of(s)[i]) && kv_line(lines_of(s)[j])
                ==> key_of(trimmed(lines_of(s)[i])) != key_of(trimmed(lines_of(s)[j])),
    ensures
        forall|i: int|
            0 <= i < lines_of(s).len() && kv_line(#[trigger] lines_of(s)[i]) ==> doc_of(
                s,
            ).dom().contains(key_of(trimmed(lines_of(s)[i]))) && doc_of(s)[key_of(
                trimmed(lines_of(s)[i]),
            )] == JsonVal::Str(val_of(trimmed(lines_of(s)[i]))),
        forall|k: Seq<char>|
            #[trigger] doc_of(s).dom().contains(k) ==> exists|i: int|
                0 <= i < lines_of(s).len() && kv_line(#[trigger] lines_of(s)[i]) && key_of(
                    trimmed(lines_of(s)[i]),
                ) == k,
{
    lemma_flat_run(init_state(), lines_of(s));
}

/// The empty input denotes the empty document, so it prints as `{}`.
pub proof fn lemma_empty_input()
    ensures
        doc_of(Seq::<char>::empty()) == empty_doc(),
{
    assert(lines_of(Seq::<char>::empty()) =~= Seq::<Seq<char>>::empty());
    assert(run_lines(init_state(), Seq::<Seq<char>>::empty()) == init_state());
}

} // verus!
