//! Mathematical model of the conversion: what a document is, how one input
//! line changes the parse state, and what the whole input denotes.
use vstd::prelude::*;

verus! {

/// A value of the output document: a string, an array, or a one-level object
/// whose fields are strings.
pub enum JsonVal {
    Str(Seq<char>),
    Arr(Seq<ArrItem>),
    Obj(Map<Seq<char>, Seq<char>>),
}

/// An element of an array value. Arrays arise from repeated top-level keys:
/// the first element is the value the key had before promotion (a string or
/// an object), every later element is a string.
pub enum ArrItem {
    Str(Seq<char>),
    Obj(Map<Seq<char>, Seq<char>>),
}

/// A character with the Unicode `White_Space` property, the set that
/// `str::trim` removes at both ends of a line.
pub open spec fn ws_char(c: char) -> bool {
    ||| ('\u{0009}' <= c && c <= '\u{000D}')
    ||| c == ' '
    ||| c == '\u{0085}'
    ||| c == '\u{00A0}'
    ||| c == '\u{1680}'
    ||| ('\u{2000}' <= c && c <= '\u{200A}')
    ||| c == '\u{2028}'
    ||| c == '\u{2029}'
    ||| c == '\u{202F}'
    ||| c == '\u{205F}'
    ||| c == '\u{3000}'
}

pub open spec fn trim_front(s: Seq<char>) -> Seq<char>
    decreases s.len(),
{
    if s.len() > 0 && ws_char(s[0]) {
        trim_front(s.skip(1))
    } else {
        s
    }
}

pub open spec fn trim_back(s: Seq<char>) -> Seq<char>
    decreases s.len(),
{
    if s.len() > 0 && ws_char(s.last()) {
        trim_back(s.drop_last())
    } else {
        s
    }
}

/// A line with surrounding whitespace removed.
pub open spec fn trimmed(s: Seq<char>) -> Seq<char> {
    trim_back(trim_front(s))
}

/// The lines of the input: maximal runs of characters between `'\n'`
/// separators. A final run without a terminating newline is a line; a
/// trailing newline does not add an empty line. A `'\r'` before the newline
/// is left on the line; it is whitespace, so trimming removes it.
pub open spec fn split_rec(s: Seq<char>, pos: int, line_start: int) -> Seq<Seq<char>>
    decreases s.len() - pos,
    when 0 <= line_start <= pos <= s.len()
{
    if pos >= s.len() {
        if line_start < s.len() {
            seq![s.subrange(line_start, s.len() as int)]
        } else {
            seq![]
        }
    } else if s[pos] == '\n' {
        seq![s.subrange(line_start, pos)] + split_rec(s, pos + 1, pos + 1)
    } else {
        split_rec(s, pos + 1, line_start)
    }
}

pub open spec fn lines_of(s: Seq<char>) -> Seq<Seq<char>> {
    split_rec(s, 0, 0)
}

/// The index of the first occurrence of `c` at or after `i`, or `s.len()`
/// if there is none.
pub open spec fn find_from(s: Seq<char>, c: char, i: int) -> int
    decreases s.len() - i,
    when 0 <= i <= s.len()
{
    if i >= s.len() {
        s.len() as int
    } else if s[i] == c {
        i
    } else {
        find_from(s, c, i + 1)
    }
}

/// True when the (trimmed) line holds exactly one colon.
pub open spec fn one_colon(t: Seq<char>) -> bool {
    find_from(t, ':', 0) < t.len() && find_from(t, ':', find_from(t, ':', 0) + 1) == t.len()
}

/// One matching pair of surrounding double quotes is removed; anything else
/// is left as it is. Only a pair goes: a lone quote, or a quote on one end
/// only, stays.
pub open spec fn strip_quotes(s: Seq<char>) -> Seq<char> {
    if s.len() >= 2 && s[0] == '"' && s.last() == '"' {
        s.subrange(1, s.len() - 1)
    } else {
        s
    }
}

/// The key of a trimmed key/value line: what stands before the colon, trimmed.
pub open spec fn key_of(t: Seq<char>) -> Seq<char> {
    trimmed(t.take(find_from(t, ':', 0)))
}

/// What stands after the colon, trimmed but not yet quote-stripped.
pub open spec fn raw_val_of(t: Seq<char>) -> Seq<char> {
    trimmed(t.skip(find_from(t, ':', 0) + 1))
}

/// The value of a trimmed key/value line.
pub open spec fn val_of(t: Seq<char>) -> Seq<char> {
    strip_quotes(raw_val_of(t))
}

/// A line that contributes nothing: blank after trimming.
pub open spec fn blank_line(raw: Seq<char>) -> bool {
    trimmed(raw).len() == 0
}

/// A line that opens a nested block: its trimmed form ends with `'{'`.
pub open spec fn open_line(raw: Seq<char>) -> bool {
    trimmed(raw).len() > 0 && trimmed(raw).last() == '{'
}

/// The key of a block opener: the line without its trailing `'{'`, trimmed.
pub open spec fn block_key(raw: Seq<char>) -> Seq<char> {
    trimmed(trimmed(raw).drop_last())
}

/// A line that closes a nested block: exactly `}` after trimming.
pub open spec fn close_line(raw: Seq<char>) -> bool {
    trimmed(raw).len() == 1 && trimmed(raw)[0] == '}'
}

/// A well-formed key/value line: not an opener, exactly one colon, and a
/// non-empty key and value on its two sides.
pub open spec fn kv_line(raw: Seq<char>) -> bool {
    let t = trimmed(raw);
    &&& t.len() > 0
    &&& t.last() != '{'
    &&& one_colon(t)
    &&& key_of(t).len() > 0
    &&& raw_val_of(t).len() > 0
}

/// The transient state of the conversion: the top-level document built so
/// far, and the fields of the one nested block that may be open. Nesting
/// depth is structurally at most one.
pub struct ParseState {
    pub root: Map<Seq<char>, JsonVal>,
    pub open_block: Option<(Seq<char>, Map<Seq<char>, Seq<char>>)>,
}

pub open spec fn init_state() -> ParseState {
    ParseState { root: Map::empty(), open_block: None }
}

/// Inserting a string under a top-level key: a fresh key gets the string; a
/// second occurrence promotes the old value to a two-element array; later
/// occurrences append.
pub open spec fn top_insert(m: Map<Seq<char>, JsonVal>, k: Seq<char>, v: Seq<char>) -> Map<
    Seq<char>,
    JsonVal,
> {
    if !m.dom().contains(k) {
        m.insert(k, JsonVal::Str(v))
    } else {
        match m[k] {
            JsonVal::Arr(items) => m.insert(k, JsonVal::Arr(items.push(ArrItem::Str(v)))),
            JsonVal::Str(s) => m.insert(
                k,
                JsonVal::Arr(seq![ArrItem::Str(s), ArrItem::Str(v)]),
            ),
            JsonVal::Obj(o) => m.insert(
                k,
                JsonVal::Arr(seq![ArrItem::Obj(o), ArrItem::Str(v)]),
            ),
        }
    }
}

/// How one input line changes the parse state. A blank line does nothing; a
/// line ending in `'{'` opens a fresh block (dropping any block already
/// open); a lone `}` closes the open block into the root, or does nothing;
/// a line with exactly one colon and non-empty parts adds a field, to the
/// open block (overwriting) or to the root (promoting repeats to arrays);
/// every other line is skipped.
pub open spec fn line_step(st: ParseState, raw: Seq<char>) -> ParseState {
    let t = trimmed(raw);
    if t.len() == 0 {
        st
    } else if t.last() == '{' {
        ParseState { root: st.root, open_block: Some((block_key(raw), Map::empty())) }
    } else if t.len() == 1 && t[0] == '}' {
        match st.open_block {
            Some((k, fields)) => ParseState {
                root: st.root.insert(k, JsonVal::Obj(fields)),
                open_block: None,
            },
            None => st,
        }
    } else if one_colon(t) && key_of(t).len() > 0 && raw_val_of(t).len() > 0 {
        match st.open_block {
            Some((bk, fields)) => ParseState {
                root: st.root,
                open_block: Some((bk, fields.insert(key_of(t), val_of(t)))),
            },
            None => ParseState { root: top_insert(st.root, key_of(t), val_of(t)), open_block: None },
        }
    } else {
        st
    }
}

pub open spec fn run_lines(st: ParseState, ls: Seq<Seq<char>>) -> ParseState
    decreases ls.len(),
{
    if ls.len() == 0 {
        st
    } else {
        run_lines(line_step(st, ls[0]), ls.skip(1))
    }
}

/// The document an input string denotes: the root after every line has been
/// processed. The fields of a block still open at the end are dropped.
pub open spec fn doc_of(s: Seq<char>) -> Map<Seq<char>, JsonVal> {
    run_lines(init_state(), lines_of(s)).root
}

/// Running a non-empty sequence of lines is running all but the last, then
/// stepping on the last.
pub proof fn lemma_run_snoc(st: ParseState, ls: Seq<Seq<char>>)
    requires
        ls.len() > 0,
    ensures
        run_lines(st, ls) == line_step(run_lines(st, ls.drop_last()), ls.last()),
    decreases ls.len(),
{
    if ls.len() == 1 {
        assert(ls.drop_last() =~= Seq::<Seq<char>>::empty());
        assert(ls.skip(1) =~= Seq::<Seq<char>>::empty());
        assert(run_lines(st, ls.drop_last()) == st);
        assert(run_lines(st, ls) == run_lines(line_step(st, ls[0]), ls.skip(1)));
        assert(run_lines(line_step(st, ls[0]), ls.skip(1)) == line_step(st, ls[0]));
        assert(ls.last() == ls[0]);
    } else {
        let st0 = line_step(st, ls[0]);
        lemma_run_snoc(st0, ls.skip(1));
        assert(ls.skip(1).drop_last() =~= ls.drop_last().skip(1));
        assert(ls.skip(1).last() == ls.last());
        assert(ls.drop_last()[0] == ls[0]);
        assert(run_lines(st, ls) == run_lines(st0, ls.skip(1)));
        assert(run_lines(st, ls.drop_last()) == run_lines(st0, ls.drop_last().skip(1)));
        assert(run_lines(st0, ls.skip(1)) == line_step(
            run_lines(st0, ls.skip(1).drop_last()),
            ls.skip(1).last(),
        ));
    }
}

/// Running a concatenation is running the first part, then the second.
pub proof fn lemma_run_append(st: ParseState, a: Seq<Seq<char>>, b: Seq<Seq<char>>)
    ensures
        run_lines(st, a + b) == run_lines(run_lines(st, a), b),
    decreases a.len(),
{
    if a.len() == 0 {
        assert(a + b =~= b);
    } else {
        assert((a + b)[0] == a[0]);
        assert((a + b).skip(1) =~= a.skip(1) + b);
        lemma_run_append(line_step(st, a[0]), a.skip(1), b);
    }
}

} // verus!
