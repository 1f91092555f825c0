use vstd::prelude::*;

use crate::date::{is_digit, Date, Timestamp};
use crate::entry::{all_valid, entries_view, strings_view, Entry, EntryView};
use crate::error::JournalError;
use crate::export::{
    hex_digit, json_char, json_entries, json_entry, json_entry_items, json_escaped, json_string,
    json_string_items, json_strings, joined, push_json_entry, push_rendered, rendered, Format,
};
use crate::text::{chars_of, decimal, digit, pad2, pad4, string_of};

verus! {

/// `cs` holds `piece` from position `pos` on.
pub open spec fn holds_at(cs: Seq<char>, pos: int, piece: Seq<char>) -> bool {
    0 <= pos && pos + piece.len() <= cs.len() && cs.subrange(pos, pos + piece.len()) == piece
}

proof fn lemma_holds_index(cs: Seq<char>, pos: int, piece: Seq<char>, i: int)
    requires
        holds_at(cs, pos, piece),
        0 <= i < piece.len(),
    ensures
        cs[pos + i] == piece[i],
{
    assert(cs.subrange(pos, pos + piece.len())[i] == piece[i]);
}

proof fn lemma_holds_split(cs: Seq<char>, pos: int, a: Seq<char>, b: Seq<char>)
    requires
        holds_at(cs, pos, a + b),
    ensures
        holds_at(cs, pos, a),
        holds_at(cs, pos + a.len(), b),
{
    assert forall|i: int| 0 <= i < a.len() implies cs.subrange(pos, pos + a.len())[i] == a[i] by {
        lemma_holds_index(cs, pos, a + b, i);
    }
    assert(cs.subrange(pos, pos + a.len()) =~= a);
    assert forall|i: int| 0 <= i < b.len() implies cs.subrange(
        pos + a.len(),
        pos + a.len() + b.len(),
    )[i] == b[i] by {
        lemma_holds_index(cs, pos, a + b, a.len() + i);
    }
    assert(cs.subrange(pos + a.len(), pos + a.len() + b.len()) =~= b);
}

proof fn lemma_holds_whole(cs: Seq<char>)
    ensures
        holds_at(cs, 0, cs),
{
    assert(cs.subrange(0, cs.len() as int) =~= cs);
}

proof fn lemma_holds_prefix(cs: Seq<char>, pos: int, piece: Seq<char>, n: int)
    requires
        holds_at(cs, pos, piece),
        0 <= n <= piece.len(),
    ensures
        holds_at(cs, pos, piece.subrange(0, n)),
{
    assert(piece =~= piece.subrange(0, n) + piece.subrange(n, piece.len() as int));
    lemma_holds_split(cs, pos, piece.subrange(0, n), piece.subrange(n, piece.len() as int));
}

proof fn lemma_escaped_concat(a: Seq<char>, b: Seq<char>)
    ensures
        json_escaped(a + b) == json_escaped(a) + json_escaped(b),
    decreases b.len(),
{
    if b.len() == 0 {
        assert(a + b =~= a);
        assert(json_escaped(a) + json_escaped(b) =~= json_escaped(a));
    } else {
        lemma_escaped_concat(a, b.drop_last());
        assert((a + b).drop_last() =~= a + b.drop_last());
        assert((a + b).last() == b.last());
        assert(json_escaped(a + b) =~= json_escaped(a) + json_escaped(b));
    }
}

proof fn lemma_escaped_one(c: char)
    ensures
        json_escaped(seq![c]) == json_char(c),
{
    let s = seq![c];
    assert(s.drop_last() =~= Seq::<char>::empty());
    assert(json_escaped(Seq::<char>::empty()) =~= Seq::<char>::empty());
    assert(json_escaped(s) == json_escaped(s.drop_last()) + json_char(s.last()));
    assert(json_escaped(s) =~= json_char(c));
}

proof fn lemma_small_char(c: char, v: u32)
    requires
        c as u32 == v,
        v < 256,
    ensures
        ((v as u8) as char) == c,
{
}

proof fn lemma_json_char_first(c: char)
    ensures
        json_char(c).len() >= 1,
        json_char(c)[0] != '"',
{
}

proof fn lemma_string_next(cs: Seq<char>, pos: int, x: Seq<char>, j: int)
    requires
        holds_at(cs, pos, json_string(x)),
        0 <= j <= x.len(),
    ensures
        pos + 1 + json_escaped(x.take(j)).len() < cs.len(),
        j == x.len() ==> cs[pos + 1 + json_escaped(x.take(j)).len()] == '"' && pos + 2
            + json_escaped(x.take(j)).len() == pos + json_string(x).len(),
        j < x.len() ==> holds_at(cs, pos + 1 + json_escaped(x.take(j)).len(), json_char(x[j])),
{
    let e = json_escaped(x);
    lemma_holds_split(cs, pos, seq!['"'] + e, seq!['"']);
    lemma_holds_split(cs, pos, seq!['"'], e);
    lemma_holds_index(cs, pos + 1 + e.len(), seq!['"'], 0);
    assert(x =~= x.take(j) + x.skip(j));
    lemma_escaped_concat(x.take(j), x.skip(j));
    lemma_holds_split(cs, pos + 1, json_escaped(x.take(j)), json_escaped(x.skip(j)));
    if j < x.len() {
        assert(x.skip(j) =~= seq![x[j]] + x.skip(j + 1));
        lemma_escaped_concat(seq![x[j]], x.skip(j + 1));
        assert(seq![x[j]].drop_last() =~= Seq::<char>::empty());
        lemma_escaped_one(x[j]);
        lemma_holds_split(
            cs,
            pos + 1 + json_escaped(x.take(j)).len(),
            json_char(x[j]),
            json_escaped(x.skip(j + 1)),
        );
        lemma_json_char_first(x[j]);
    } else {
        assert(x.take(j) =~= x);
    }
}

proof fn lemma_joined_step(items: Seq<Seq<char>>, k: int)
    requires
        0 <= k < items.len(),
    ensures
        joined(items.take(k + 1), seq![], seq![',']) == joined(items.take(k), seq![], seq![','])
            + (if k == 0 {
            Seq::<char>::empty()
        } else {
            seq![',']
        }) + items[k],
{
    assert(items.take(k + 1).drop_last() =~= items.take(k));
    if k == 0 {
        assert(Seq::<char>::empty() + items[0] =~= items[0]);
        assert(joined(items.take(0), seq![], seq![',']) =~= Seq::<char>::empty());
        assert(Seq::<char>::empty() + Seq::<char>::empty() + items[0] =~= items[0]);
    }
}

proof fn lemma_joined_prefix(items: Seq<Seq<char>>, k: int, m: int)
    requires
        0 <= k <= m <= items.len(),
    ensures
        joined(items.take(k), seq![], seq![',']).len() <= joined(items.take(m), seq![], seq![',']).len(),
        joined(items.take(m), seq![], seq![',']).subrange(
            0,
            joined(items.take(k), seq![], seq![',']).len() as int,
        ) == joined(items.take(k), seq![], seq![',']),
    decreases m - k,
{
    let a = joined(items.take(k), seq![], seq![',']);
    if k == m {
        assert(a.subrange(0, a.len() as int) =~= a);
    } else {
        lemma_joined_prefix(items, k, m - 1);
        lemma_joined_step(items, m - 1);
        let b = joined(items.take(m - 1), seq![], seq![',']);
        let c = joined(items.take(m), seq![], seq![',']);
        assert(c.subrange(0, a.len() as int) =~= b.subrange(0, a.len() as int));
    }
}

/// Where the items of a bracketed, comma-separated list stand.
proof fn lemma_list_item(cs: Seq<char>, pos: int, items: Seq<Seq<char>>, k: int)
    requires
        holds_at(cs, pos, seq!['['] + joined(items, seq![], seq![',']) + seq![']']),
        0 <= k < items.len(),
    ensures
        holds_at(
            cs,
            pos + 1 + joined(items.take(k), seq![], seq![',']).len() + (if k == 0 {
                0int
            } else {
                1
            }),
            items[k],
        ),
        pos + 1 + joined(items.take(k + 1), seq![], seq![',']).len() == pos + 1 + joined(
            items.take(k),
            seq![],
            seq![','],
        ).len() + (if k == 0 {
            0int
        } else {
            1
        }) + items[k].len(),
        k + 1 < items.len() ==> cs[pos + 1 + joined(items.take(k + 1), seq![], seq![',']).len()]
            == ',',
        k + 1 == items.len() ==> cs[pos + 1 + joined(items.take(k + 1), seq![], seq![',']).len()]
            == ']' && pos + 2 + joined(items.take(k + 1), seq![], seq![',']).len() == pos + (
        seq!['['] + joined(items, seq![], seq![',']) + seq![']']).len(),
{
    let all = joined(items, seq![], seq![',']);
    lemma_holds_split(cs, pos, seq!['['] + all, seq![']']);
    lemma_holds_split(cs, pos, seq!['['], all);
    assert(items.take(items.len() as int) =~= items);
    lemma_joined_prefix(items, k + 1, items.len() as int);
    let upto = joined(items.take(k + 1), seq![], seq![',']);
    lemma_holds_prefix(cs, pos + 1, all, upto.len() as int);
    lemma_joined_step(items, k);
    let sep = if k == 0 {
        Seq::<char>::empty()
    } else {
        seq![',']
    };
    lemma_holds_split(cs, pos + 1, joined(items.take(k), seq![], seq![',']) + sep, items[k]);
    if k + 1 < items.len() {
        lemma_joined_prefix(items, k + 2, items.len() as int);
        lemma_joined_step(items, k + 1);
        let next = joined(items.take(k + 2), seq![], seq![',']);
        lemma_holds_prefix(cs, pos + 1, all, next.len() as int);
        lemma_holds_index(cs, pos + 1, next, upto.len() as int);
    } else {
        assert(items.take(k + 1) =~= items);
        lemma_holds_index(cs, pos + 1 + all.len(), seq![']'], 0);
    }
}

/// The start of a bracketed list: its closing bracket when it is empty, its
/// first item otherwise.
proof fn lemma_list_start(cs: Seq<char>, pos: int, items: Seq<Seq<char>>)
    requires
        holds_at(cs, pos, seq!['['] + joined(items, seq![], seq![',']) + seq![']']),
    ensures
        cs[pos] == '[',
        items.len() == 0 ==> cs[pos + 1] == ']' && pos + 2 == pos + (seq!['['] + joined(
            items,
            seq![],
            seq![','],
        ) + seq![']']).len(),
        items.len() > 0 ==> holds_at(cs, pos + 1, items[0]),
{
    let all = joined(items, seq![], seq![',']);
    lemma_holds_split(cs, pos, seq!['['] + all, seq![']']);
    lemma_holds_split(cs, pos, seq!['['], all);
    lemma_holds_index(cs, pos, seq!['['], 0);
    if items.len() == 0 {
        lemma_holds_index(cs, pos + 1 + all.len(), seq![']'], 0);
    } else {
        lemma_list_item(cs, pos, items, 0);
        assert(items.take(0) =~= Seq::<Seq<char>>::empty());
    }
}

/// Whether two character vectors hold the same characters.
pub(crate) fn same_chars(a: &Vec<char>, b: &Vec<char>) -> (r: bool)
    ensures
        r == (a@ == b@),
{
    if a.len() != b.len() {
        return false;
    }
    let mut i: usize = 0;
    while i < a.len()
        invariant
            a@.len() == b@.len(),
            i <= a@.len(),
            forall|j: int| 0 <= j < i ==> a@[j] == b@[j],
        decreases a@.len() - i,
    {
        if a[i] != b[i] {
            return false;
        }
        i = i + 1;
    }
    assert(a@ =~= b@);
    true
}

/// The position after `lit`, when `cs` holds it at `pos`.
fn expect(cs: &Vec<char>, pos: usize, lit: &str) -> (r: Option<usize>)
    requires
        pos <= cs@.len(),
    ensures
        r matches Some(p) ==> pos <= p <= cs@.len(),
        holds_at(cs@, pos as int, lit@) ==> (r matches Some(p) && p == pos + lit@.len()),
{
    let l = chars_of(lit);
    if l.len() > cs.len() - pos {
        return None;
    }
    let mut i: usize = 0;
    while i < l.len()
        invariant
            pos + l@.len() <= cs@.len() <= usize::MAX,
            i <= l@.len(),
            l@ == lit@,
            forall|j: int| 0 <= j < i ==> cs@[pos + j] == l@[j],
        decreases l@.len() - i,
    {
        if cs[pos + i] != l[i] {
            proof {
                if holds_at(cs@, pos as int, lit@) {
                    lemma_holds_index(cs@, pos as int, lit@, i as int);
                }
            }
            return None;
        }
        i = i + 1;
    }
    Some(pos + l.len())
}

fn hex_value(c: char) -> (r: Option<u32>)
    ensures
        r matches Some(v) ==> v < 16,
        forall|k: int| 0 <= k < 16 && c == hex_digit(k) ==> r == Some(k as u32),
{
    if '0' <= c && c <= '9' {
        Some(c as u32 - 48)
    } else if 'a' <= c && c <= 'f' {
        Some(c as u32 - 87)
    } else {
        None
    }
}

/// Reads one character of a JSON string at `q`, and the position after it.
fn decode_one(cs: &Vec<char>, q: usize) -> (r: Option<(char, usize)>)
    requires
        q < cs@.len(),
    ensures
        r matches Some((_, p)) ==> q < p <= cs@.len(),
        forall|c: char|
            holds_at(cs@, q as int, #[trigger] json_char(c)) ==> (r matches Some((d, p)) && d == c
                && p == q + json_char(c).len()),
{
    let len = cs.len();
    let c = cs[q];
    let r: Option<(char, usize)> = if c == '\\' {
        if len - q < 2 {
            None
        } else {
            let n = cs[q + 1];
            if n == '"' || n == '\\' {
                Some((n, q + 2))
            } else if n == 'n' {
                Some(('\n', q + 2))
            } else if n == 'r' {
                Some(('\r', q + 2))
            } else if n == 't' {
                Some(('\t', q + 2))
            } else if n == 'u' {
                if len - q < 6 || cs[q + 2] != '0' || cs[q + 3] != '0' {
                    None
                } else {
                    let hi = hex_value(cs[q + 4]);
                    let lo = hex_value(cs[q + 5]);
                    match (hi, lo) {
                        (Some(h), Some(l)) => {
                            let code: u32 = h * 16 + l;
                            Some(((code as u8) as char, q + 6))
                        },
                        _ => None,
                    }
                }
            } else {
                None
            }
        }
    } else {
        Some((c, q + 1))
    };
    proof {
        assert forall|x: char| holds_at(cs@, q as int, #[trigger] json_char(x)) implies (r matches Some(
            (d, p),
        ) && d == x && p == q + json_char(x).len()) by {
            let jc = json_char(x);
            lemma_holds_index(cs@, q as int, jc, 0);
            if jc.len() >= 2 {
                lemma_holds_index(cs@, q as int, jc, 1);
            }
            if x == '"' || x == '\\' || x == '\n' || x == '\r' || x == '\t' {
            } else if (x as u32) < 32 {
                let v = (x as u32) as int;
                lemma_holds_index(cs@, q as int, jc, 2);
                lemma_holds_index(cs@, q as int, jc, 3);
                lemma_holds_index(cs@, q as int, jc, 4);
                lemma_holds_index(cs@, q as int, jc, 5);
                assert(cs@[q + 4] == hex_digit(v / 16));
                assert(cs@[q + 5] == hex_digit(v % 16));
                let w: u32 = x as u32;
                assert(v / 16 * 16 + v % 16 == w);
                lemma_small_char(x, w);
            } else {
                assert(jc == seq![x]);
            }
        }
    }
    r
}

/// Reads a JSON string at `pos`: its characters, and the position after it.
fn read_string(cs: &Vec<char>, pos: usize) -> (r: Option<(String, usize)>)
    requires
        pos <= cs@.len(),
    ensures
        r matches Some((_, p)) ==> pos <= p <= cs@.len(),
        forall|x: Seq<char>|
            holds_at(cs@, pos as int, #[trigger] json_string(x)) ==> (r matches Some((s, p)) && s@
                == x && p == pos + json_string(x).len()),
{
    if pos >= cs.len() || cs[pos] != '"' {
        proof {
            assert forall|x: Seq<char>| holds_at(cs@, pos as int, #[trigger] json_string(x))
                implies false by {
                lemma_holds_index(cs@, pos as int, json_string(x), 0);
            }
        }
        return None;
    }
    let mut out: Vec<char> = Vec::new();
    let mut q: usize = pos + 1;
    proof {
        assert forall|x: Seq<char>| holds_at(cs@, pos as int, #[trigger] json_string(x)) implies (
        out@.len() <= x.len() && out@ == x.take(out@.len() as int) && q == pos + 1
            + json_escaped(out@).len()) by {
            assert(x.take(0) =~= out@);
        }
    }
    while q < cs.len()
        invariant
            pos < q <= cs@.len(),
            forall|x: Seq<char>|
                holds_at(cs@, pos as int, #[trigger] json_string(x)) ==> (out@.len() <= x.len()
                    && out@ == x.take(out@.len() as int) && q == pos + 1 + json_escaped(
                    out@,
                ).len()),
        decreases cs@.len() - q,
    {
        let c = cs[q];
        if c == '"' {
            proof {
                assert forall|x: Seq<char>| holds_at(cs@, pos as int, #[trigger] json_string(x))
                    implies out@ == x && q + 1 == pos + json_string(x).len() by {
                    lemma_string_next(cs@, pos as int, x, out@.len() as int);
                    if out@.len() < x.len() {
                        lemma_holds_index(cs@, q as int, json_char(x[out@.len() as int]), 0);
                    }
                    assert(x.take(x.len() as int) =~= x);
                }
            }
            return Some((string_of(&out), q + 1));
        }
        let ghost q0 = q;
        let ghost before = out@;
        match decode_one(cs, q) {
            Some((d, next)) => {
                out.push(d);
                q = next;
                proof {
                    assert forall|x: Seq<char>| holds_at(cs@, pos as int, #[trigger] json_string(x))
                        implies (out@.len() <= x.len() && out@ == x.take(out@.len() as int) && q
                        == pos + 1 + json_escaped(out@).len()) by {
                        let j = before.len() as int;
                        lemma_string_next(cs@, pos as int, x, j);
                        assert(x.take(j) =~= before);
                        if j == x.len() {
                            assert(false);
                        }
                        assert(out@ =~= x.take(j + 1));
                        assert(out@.drop_last() =~= before);
                    }
                }
            },
            None => {
                proof {
                    assert forall|x: Seq<char>| holds_at(cs@, pos as int, #[trigger] json_string(x))
                        implies false by {
                        let j = before.len() as int;
                        lemma_string_next(cs@, pos as int, x, j);
                        assert(x.take(j) =~= before);
                    }
                }
                return None;
            },
        }
    }
    proof {
        assert forall|x: Seq<char>| holds_at(cs@, pos as int, #[trigger] json_string(x)) implies false by {
            lemma_string_next(cs@, pos as int, x, out@.len() as int);
        }
    }
    None
}

/// Reads a JSON array of strings at `pos`.
fn read_strings(cs: &Vec<char>, pos: usize) -> (r: Option<(Vec<String>, usize)>)
    requires
        pos <= cs@.len(),
    ensures
        r matches Some((_, p)) ==> pos <= p <= cs@.len(),
        forall|v: Seq<Seq<char>>|
            holds_at(cs@, pos as int, #[trigger] json_strings(v)) ==> (r matches Some((items, p))
                && strings_view(items@) == v && p == pos + json_strings(v).len()),
{
    if cs.len() - pos < 2 || cs[pos] != '[' {
        proof {
            assert forall|v: Seq<Seq<char>>| holds_at(cs@, pos as int, #[trigger] json_strings(v))
                implies false by {
                lemma_list_start(cs@, pos as int, json_string_items(v));
            }
        }
        return None;
    }
    let mut items: Vec<String> = Vec::new();
    if cs[pos + 1] == ']' {
        proof {
            assert forall|v: Seq<Seq<char>>| holds_at(cs@, pos as int, #[trigger] json_strings(v))
                implies (strings_view(items@) == v && pos + 2 == pos + json_strings(v).len()) by {
                lemma_list_start(cs@, pos as int, json_string_items(v));
                if v.len() > 0 {
                    lemma_holds_index(cs@, pos + 1, json_string_items(v)[0], 0);
                }
                assert(strings_view(items@) =~= v);
            }
        }
        return Some((items, pos + 2));
    }
    let mut q: usize = pos + 1;
    proof {
        assert forall|v: Seq<Seq<char>>| holds_at(cs@, pos as int, #[trigger] json_strings(v))
            implies (items@.len() < v.len() && strings_view(items@) == v.take(items@.len() as int)
            && q == pos + 1 + joined(json_string_items(v).take(items@.len() as int), seq![], seq![',']).len() + (
        if items@.len() == 0 {
            0int
        } else {
            1
        })) by {
            lemma_list_start(cs@, pos as int, json_string_items(v));
            assert(strings_view(items@) =~= v.take(0));
            assert(json_string_items(v).take(0) =~= Seq::<Seq<char>>::empty());
        }
    }
    loop
        invariant
            pos < q <= cs@.len(),
            forall|v: Seq<Seq<char>>|
                holds_at(cs@, pos as int, #[trigger] json_strings(v)) ==> (items@.len() < v.len()
                    && strings_view(items@) == v.take(items@.len() as int) && q == pos + 1
                    + joined(json_string_items(v).take(items@.len() as int), seq![], seq![',']).len() + (if items@.len()
                    == 0 {
                    0int
                } else {
                    1
                })),
        decreases cs@.len() - q,
    {
        let ghost k = items@.len() as int;
        let ghost before = items@;
        proof {
            assert forall|v: Seq<Seq<char>>| holds_at(cs@, pos as int, #[trigger] json_strings(v))
                implies holds_at(cs@, q as int, json_string(v[k])) by {
                lemma_list_item(cs@, pos as int, json_string_items(v), k);
            }
        }
        let (s, after) = match read_string(cs, q) {
            Some(x) => x,
            None => {
                return None;
            },
        };
        items.push(s);
        proof {
            assert forall|v: Seq<Seq<char>>| holds_at(cs@, pos as int, #[trigger] json_strings(v))
                implies (strings_view(items@) == v.take(k + 1) && after == pos + 1 + joined(
                json_string_items(v).take(k + 1),
                seq![],
                seq![','],
            ).len()) by {
                lemma_list_item(cs@, pos as int, json_string_items(v), k);
                assert(strings_view(items@) =~= v.take(k + 1));
            }
        }
        if after < cs.len() && cs[after] == ']' {
            proof {
                assert forall|v: Seq<Seq<char>>| holds_at(cs@, pos as int, #[trigger] json_strings(v))
                    implies (strings_view(items@) == v && after + 1 == pos + json_strings(v).len())
                    by {
                    lemma_list_item(cs@, pos as int, json_string_items(v), k);
                    assert(v.take(k + 1) =~= v);
                }
            }
            return Some((items, after + 1));
        }
        if after >= cs.len() || cs[after] != ',' || after + 1 >= cs.len() {
            proof {
                assert forall|v: Seq<Seq<char>>| holds_at(cs@, pos as int, #[trigger] json_strings(v))
                    implies false by {
                    lemma_list_item(cs@, pos as int, json_string_items(v), k);
                    if k + 1 < v.len() {
                        lemma_list_item(cs@, pos as int, json_string_items(v), k + 1);
                    }
                }
            }
            return None;
        }
        q = after + 1;
        proof {
            assert forall|v: Seq<Seq<char>>| holds_at(cs@, pos as int, #[trigger] json_strings(v))
                implies (items@.len() < v.len() && strings_view(items@) == v.take(items@.len() as int)
                && q == pos + 1 + joined(json_string_items(v).take(items@.len() as int), seq![], seq![',']).len()
                + 1) by {
                lemma_list_item(cs@, pos as int, json_string_items(v), k);
                if k + 1 == v.len() {
                    assert(false);
                }
            }
        }
    }
}

/// The number that a string of decimal digits writes.
pub open spec fn digits_value(s: Seq<char>) -> int
    decreases s.len(),
{
    if s.len() == 0 {
        0
    } else {
        digits_value(s.drop_last()) * 10 + (s.last() as int - 48)
    }
}

/// Every character is a decimal digit.
pub open spec fn all_digits(s: Seq<char>) -> bool {
    forall|i: int| 0 <= i < s.len() ==> is_digit(#[trigger] s[i])
}

/// `cs` holds the decimal notation of `n` at `pos`, and no digit right after it.
pub open spec fn number_at(cs: Seq<char>, pos: int, n: u64) -> bool {
    &&& holds_at(cs, pos, decimal(n as nat))
    &&& (pos + decimal(n as nat).len() == cs.len() || !is_digit(cs[pos + decimal(n as nat).len()]))
}

pub(crate) proof fn lemma_digit_char(k: int)
    requires
        0 <= k < 10,
    ensures
        digit(k) as int == 48 + k,
        is_digit(digit(k)),
{
    assert((digit(k) as u32) == 48 + k);
}

pub(crate) proof fn lemma_decimal(n: nat)
    ensures
        all_digits(decimal(n)),
        digits_value(decimal(n)) == n,
        decimal(n).len() >= 1,
    decreases n,
{
    if n < 10 {
        assert(decimal(n).drop_last() =~= Seq::<char>::empty());
        lemma_digit_char(n as int);
        assert(digits_value(Seq::<char>::empty()) == 0);
    } else {
        lemma_decimal(n / 10);
        assert(decimal(n).drop_last() =~= decimal(n / 10));
        lemma_digit_char((n % 10) as int);
        assert(decimal(n).last() == digit((n % 10) as int));
    }
}

proof fn lemma_digits_nonneg(s: Seq<char>)
    requires
        all_digits(s),
    ensures
        digits_value(s) >= 0,
    decreases s.len(),
{
    if s.len() > 0 {
        assert(all_digits(s.drop_last())) by {
            assert forall|i: int| 0 <= i < s.drop_last().len() implies is_digit(
                #[trigger] s.drop_last()[i],
            ) by {
                assert(s.drop_last()[i] == s[i]);
            }
        }
        lemma_digits_nonneg(s.drop_last());
        assert(is_digit(s[s.len() - 1]));
    }
}

proof fn lemma_digits_mono(s: Seq<char>, k: int)
    requires
        all_digits(s),
        0 <= k <= s.len(),
    ensures
        0 <= digits_value(s.take(k)) <= digits_value(s),
    decreases s.len() - k,
{
    assert(all_digits(s.take(k))) by {
        assert forall|i: int| 0 <= i < s.take(k).len() implies is_digit(#[trigger] s.take(k)[i]) by {
            assert(s.take(k)[i] == s[i]);
        }
    }
    lemma_digits_nonneg(s.take(k));
    if k < s.len() {
        lemma_digits_mono(s, k + 1);
        assert(s.take(k + 1).drop_last() =~= s.take(k));
        assert(is_digit(s[k]));
    } else {
        assert(s.take(k) =~= s);
    }
}

/// Reads a decimal number at `pos`.
fn read_number(cs: &Vec<char>, pos: usize) -> (r: Option<(u64, usize)>)
    requires
        pos <= cs@.len(),
    ensures
        r matches Some((_, p)) ==> pos <= p <= cs@.len(),
        forall|n: u64|
            #[trigger] number_at(cs@, pos as int, n) ==> (r matches Some((m, p)) && m == n && p
                == pos + decimal(n as nat).len()),
{
    let mut n: u64 = 0;
    let mut q: usize = pos;
    while q < cs.len() && '0' <= cs[q] && cs[q] <= '9'
        invariant
            pos <= q <= cs@.len(),
            forall|m: u64|
                #[trigger] number_at(cs@, pos as int, m) ==> q <= pos + decimal(m as nat).len()
                    && n == digits_value(decimal(m as nat).take(q - pos)),
        decreases cs@.len() - q,
    {
        let d = (cs[q] as u32 - 48) as u64;
        let ghost n0 = n;
        let ghost q0 = q;
        proof {
            assert forall|m: u64| #[trigger] number_at(cs@, pos as int, m) implies q
                < pos + decimal(m as nat).len() && n0 * 10 + d == digits_value(
                decimal(m as nat).take(q - pos + 1),
            ) && n0 * 10 + d <= m by {
                let dm = decimal(m as nat);
                lemma_decimal(m as nat);
                if q == pos + dm.len() {
                    assert(false);
                }
                lemma_holds_index(cs@, pos as int, dm, q - pos);
                assert(dm.take(q - pos + 1).drop_last() =~= dm.take(q - pos));
                lemma_digits_mono(dm, q - pos + 1);
            }
        }
        n = match n.checked_mul(10) {
            Some(m) => match m.checked_add(d) {
                Some(v) => v,
                None => {
                    return None;
                },
            },
            None => {
                return None;
            },
        };
        q = q + 1;
    }
    proof {
        assert forall|m: u64| #[trigger] number_at(cs@, pos as int, m) implies q == pos
            + decimal(m as nat).len() && n == m by {
            let dm = decimal(m as nat);
            lemma_decimal(m as nat);
            if q < pos + dm.len() {
                lemma_holds_index(cs@, pos as int, dm, q - pos);
            }
            assert(dm.take(dm.len() as int) =~= dm);
        }
    }
    if q == pos {
        proof {
            assert forall|m: u64| #[trigger] number_at(cs@, pos as int, m) implies false by {
                lemma_decimal(m as nat);
            }
        }
        None
    } else {
        Some((n, q))
    }
}

proof fn lemma_pad2(n: int)
    requires
        0 <= n < 100,
    ensures
        all_digits(pad2(n)),
        digits_value(pad2(n)) == n,
{
    lemma_digit_char(n / 10);
    lemma_digit_char(n % 10);
    let p = pad2(n);
    assert(p.drop_last() =~= seq![digit(n / 10)]);
    assert(p.drop_last().drop_last() =~= Seq::<char>::empty());
    reveal_with_fuel(digits_value, 3);
    assert(n / 10 * 10 + n % 10 == n);
}

proof fn lemma_pad4(n: int)
    requires
        0 <= n < 10000,
    ensures
        all_digits(pad4(n)),
        digits_value(pad4(n)) == n,
{
    lemma_digit_char(n / 1000);
    lemma_digit_char((n / 100) % 10);
    lemma_digit_char((n / 10) % 10);
    lemma_digit_char(n % 10);
    let p = pad4(n);
    assert(p.drop_last() =~= seq![digit(n / 1000), digit((n / 100) % 10), digit((n / 10) % 10)]);
    assert(p.drop_last().drop_last() =~= seq![digit(n / 1000), digit((n / 100) % 10)]);
    assert(p.drop_last().drop_last().drop_last() =~= seq![digit(n / 1000)]);
    assert(p.drop_last().drop_last().drop_last().drop_last() =~= Seq::<char>::empty());
    reveal_with_fuel(digits_value, 5);
    assert(((n / 1000 * 10 + (n / 100) % 10) * 10 + (n / 10) % 10) * 10 + n % 10 == n);
}

/// The layout of a moment's ISO 8601 text.
proof fn lemma_timestamp_text(t: Timestamp)
    requires
        t.valid(),
    ensures
        ({
            let x = t.text();
            let off = if t.offset_minutes < 0 {
                -t.offset_minutes
            } else {
                t.offset_minutes as int
            };
            &&& x.len() == 25
            &&& x[4] == '-' && x[7] == '-' && x[10] == 'T' && x[13] == ':' && x[16] == ':'
                && x[22] == ':'
            &&& x[19] == if t.offset_minutes < 0 {
                '-'
            } else {
                '+'
            }
            &&& all_digits(x.subrange(0, 4)) && digits_value(x.subrange(0, 4)) == t.date.year
            &&& all_digits(x.subrange(5, 7)) && digits_value(x.subrange(5, 7)) == t.date.month
            &&& all_digits(x.subrange(8, 10)) && digits_value(x.subrange(8, 10)) == t.date.day
            &&& all_digits(x.subrange(11, 13)) && digits_value(x.subrange(11, 13)) == t.hour
            &&& all_digits(x.subrange(14, 16)) && digits_value(x.subrange(14, 16)) == t.minute
            &&& all_digits(x.subrange(17, 19)) && digits_value(x.subrange(17, 19)) == t.second
            &&& all_digits(x.subrange(20, 22)) && digits_value(x.subrange(20, 22)) == off / 60
            &&& all_digits(x.subrange(23, 25)) && digits_value(x.subrange(23, 25)) == off % 60
        }),
{
    let x = t.text();
    let off = if t.offset_minutes < 0 {
        -t.offset_minutes
    } else {
        t.offset_minutes as int
    };
    let sign = if t.offset_minutes < 0 {
        '-'
    } else {
        '+'
    };
    let d = t.date;
    assert(x =~= pad4(d.year as int) + seq!['-'] + pad2(d.month as int) + seq!['-'] + pad2(
        d.day as int,
    ) + seq!['T'] + pad2(t.hour as int) + seq![':'] + pad2(t.minute as int) + seq![':'] + pad2(
        t.second as int,
    ) + seq![sign] + pad2(off / 60) + seq![':'] + pad2(off % 60));
    assert(x.subrange(0, 4) =~= pad4(d.year as int));
    assert(x.subrange(5, 7) =~= pad2(d.month as int));
    assert(x.subrange(8, 10) =~= pad2(d.day as int));
    assert(x.subrange(11, 13) =~= pad2(t.hour as int));
    assert(x.subrange(14, 16) =~= pad2(t.minute as int));
    assert(x.subrange(17, 19) =~= pad2(t.second as int));
    assert(x.subrange(20, 22) =~= pad2(off / 60));
    assert(x.subrange(23, 25) =~= pad2(off % 60));
    lemma_pad4(d.year as int);
    lemma_pad2(d.month as int);
    lemma_pad2(d.day as int);
    lemma_pad2(t.hour as int);
    lemma_pad2(t.minute as int);
    lemma_pad2(t.second as int);
    lemma_pad2(off / 60);
    lemma_pad2(off % 60);
}

fn digits_at(cs: &Vec<char>, at: usize, count: usize) -> (r: Option<u32>)
    requires
        at + count <= cs@.len(),
        count <= 4,
    ensures
        r == (if all_digits(cs@.subrange(at as int, at + count)) {
            Some(digits_value(cs@.subrange(at as int, at + count)) as u32)
        } else {
            None::<u32>
        }),
        r matches Some(v) ==> v < 10000,
{
    let total = cs.len();
    let mut v: u32 = 0;
    let mut i: usize = 0;
    while i < count
        invariant
            at + count <= cs@.len() == total,
            i <= count <= 4,
            all_digits(cs@.subrange(at as int, at + i)),
            v == digits_value(cs@.subrange(at as int, at + i)),
            i == 0 ==> v == 0,
            i == 1 ==> v < 10,
            i == 2 ==> v < 100,
            i == 3 ==> v < 1000,
            v < 10000,
        decreases count - i,
    {
        let c = cs[at + i];
        assert(cs@.subrange(at as int, at + i + 1).drop_last() =~= cs@.subrange(at as int, at + i));
        if c < '0' || c > '9' {
            assert(!is_digit(cs@.subrange(at as int, at + count)[i as int]));
            return None;
        }
        v = v * 10 + (c as u32 - 48);
        i = i + 1;
        assert(all_digits(cs@.subrange(at as int, at + i))) by {
            assert forall|j: int| 0 <= j < i implies is_digit(
                #[trigger] cs@.subrange(at as int, at + i)[j],
            ) by {
                if j < i - 1 {
                    assert(cs@.subrange(at as int, at + i)[j] == cs@.subrange(at as int, at + i - 1)[j]);
                }
            }
        }
    }
    assert(cs@.subrange(at as int, at + i) =~= cs@.subrange(at as int, at + count));
    Some(v)
}

/// Reads a moment written as `YYYY-MM-DDTHH:MM:SS+HH:MM`.
fn read_timestamp(s: &String) -> (r: Option<Timestamp>)
    ensures
        r matches Some(t) ==> t.valid(),
        forall|t: Timestamp| t.valid() && #[trigger] t.text() == s@ ==> r == Some(t),
{
    let cs = chars_of(s.as_str());
    if cs.len() != 25 || cs[4] != '-' || cs[7] != '-' || cs[10] != 'T' || cs[13] != ':' || cs[16]
        != ':' || cs[22] != ':' || (cs[19] != '+' && cs[19] != '-') {
        proof {
            assert forall|t: Timestamp| t.valid() && #[trigger] t.text() == s@ implies false by {
                lemma_timestamp_text(t);
            }
        }
        return None;
    }
    let yv = digits_at(&cs, 0, 4);
    let mov = digits_at(&cs, 5, 2);
    let dv = digits_at(&cs, 8, 2);
    let hv = digits_at(&cs, 11, 2);
    let miv = digits_at(&cs, 14, 2);
    let sev = digits_at(&cs, 17, 2);
    let ohv = digits_at(&cs, 20, 2);
    let omv = digits_at(&cs, 23, 2);
    match (yv, mov, dv, hv, miv, sev, ohv, omv) {
        (Some(y), Some(mo), Some(d), Some(h), Some(mi), Some(se), Some(oh), Some(om)) => {
            if y > 9999 || mo > 99 || d > 99 || h > 99 || mi > 99 || se > 99 || oh > 23 || om
                > 59 {
                proof {
                    assert forall|t: Timestamp| t.valid() && #[trigger] t.text() == s@ implies false by {
                        lemma_timestamp_text(t);
                    }
                }
                return None;
            }
            let mag: i16 = (oh * 60 + om) as i16;
            let off: i16 = if cs[19] == '-' {
                -mag
            } else {
                mag
            };
            let date = match Date::new(y as u16, mo as u8, d as u8) {
                Some(date) => date,
                None => {
                    proof {
                        assert forall|t: Timestamp| t.valid() && #[trigger] t.text() == s@ implies false by {
                            lemma_timestamp_text(t);
                        }
                    }
                    return None;
                },
            };
            let r = Timestamp::new(date, h as u8, mi as u8, se as u8, off);
            proof {
                assert forall|t: Timestamp| t.valid() && #[trigger] t.text() == s@ implies r == Some(t) by {
                    lemma_timestamp_text(t);
                }
            }
            r
        },
        _ => {
            proof {
                assert forall|t: Timestamp| t.valid() && #[trigger] t.text() == s@ implies false by {
                    lemma_timestamp_text(t);
                }
            }
            None
        },
    }
}

/// The pieces of an entry's JSON object, in order.
pub open spec fn entry_piece(e: EntryView, k: int) -> Seq<char> {
    if k == 0 {
        "{\"id\":"@
    } else if k == 1 {
        decimal(e.id as nat)
    } else if k == 2 {
        ",\"created_at\":"@
    } else if k == 3 {
        json_string(e.created_at.text())
    } else if k == 4 {
        ",\"content\":"@
    } else if k == 5 {
        json_string(e.content)
    } else if k == 6 {
        ",\"media\":"@
    } else if k == 7 {
        json_strings(e.media)
    } else if k == 8 {
        ",\"tags\":"@
    } else if k == 9 {
        json_strings(e.tags)
    } else {
        "}"@
    }
}

/// Where piece `k` of an entry's JSON object starts.
pub open spec fn entry_mark(e: EntryView, k: int) -> int
    decreases k,
{
    if k <= 0 {
        0
    } else {
        entry_mark(e, k - 1) + entry_piece(e, k - 1).len()
    }
}

/// `cs` holds the JSON object of a valid entry `e` at `pos`.
pub open spec fn entry_at(cs: Seq<char>, pos: int, e: EntryView) -> bool {
    e.created_at.valid() && holds_at(cs, pos, json_entry(e))
}

proof fn lemma_entry_layout(cs: Seq<char>, pos: int, e: EntryView)
    requires
        entry_at(cs, pos, e),
    ensures
        forall|k: int| 0 <= k <= 10 ==> holds_at(cs, pos + entry_mark(e, k), #[trigger] entry_piece(e, k)),
        entry_mark(e, 11) == json_entry(e).len(),
        number_at(cs, pos + entry_mark(e, 1), e.id),
{
    reveal(json_entry);
    reveal_with_fuel(entry_mark, 12);
    let s1 = entry_piece(e, 0);
    let s2 = s1 + entry_piece(e, 1);
    let s3 = s2 + entry_piece(e, 2);
    let s4 = s3 + entry_piece(e, 3);
    let s5 = s4 + entry_piece(e, 4);
    let s6 = s5 + entry_piece(e, 5);
    let s7 = s6 + entry_piece(e, 6);
    let s8 = s7 + entry_piece(e, 7);
    let s9 = s8 + entry_piece(e, 8);
    let s10 = s9 + entry_piece(e, 9);
    let s11 = s10 + entry_piece(e, 10);
    assert(json_entry(e) =~= s11);
    lemma_holds_split(cs, pos, s10, entry_piece(e, 10));
    lemma_holds_split(cs, pos, s9, entry_piece(e, 9));
    lemma_holds_split(cs, pos, s8, entry_piece(e, 8));
    lemma_holds_split(cs, pos, s7, entry_piece(e, 7));
    lemma_holds_split(cs, pos, s6, entry_piece(e, 6));
    lemma_holds_split(cs, pos, s5, entry_piece(e, 5));
    lemma_holds_split(cs, pos, s4, entry_piece(e, 4));
    lemma_holds_split(cs, pos, s3, entry_piece(e, 3));
    lemma_holds_split(cs, pos, s2, entry_piece(e, 2));
    lemma_holds_split(cs, pos, s1, entry_piece(e, 1));
    reveal_strlit(",\"created_at\":");
    lemma_holds_index(cs, pos + entry_mark(e, 2), entry_piece(e, 2), 0);
}

/// Reads one entry object at `pos`.
fn read_entry(cs: &Vec<char>, pos: usize) -> (r: Option<(Entry, usize)>)
    requires
        pos <= cs@.len(),
    ensures
        r matches Some((e, p)) ==> pos <= p <= cs@.len() && e.created_at.valid(),
        forall|e: EntryView|
            #[trigger] entry_at(cs@, pos as int, e) ==> (r matches Some((en, p)) && en@ == e && p
                == pos + json_entry(e).len()),
{
    proof {
        assert forall|e: EntryView| #[trigger] entry_at(cs@, pos as int, e) implies holds_at(
            cs@,
            pos as int,
            entry_piece(e, 0),
        ) by {
            lemma_entry_layout(cs@, pos as int, e);
        }
    }
    let q = expect(cs, pos, "{\"id\":")?;
    proof {
        assert forall|e: EntryView| #[trigger] entry_at(cs@, pos as int, e) implies q == pos
            + entry_mark(e, 1) && number_at(cs@, q as int, e.id) by {
            lemma_entry_layout(cs@, pos as int, e);
            reveal_with_fuel(entry_mark, 2);
        }
    }
    let (id, q) = read_number(cs, q)?;
    proof {
        assert forall|e: EntryView| #[trigger] entry_at(cs@, pos as int, e) implies id == e.id && q
            == pos + entry_mark(e, 2) && holds_at(cs@, q as int, entry_piece(e, 2)) by {
            lemma_entry_layout(cs@, pos as int, e);
            reveal_with_fuel(entry_mark, 3);
        }
    }
    let q = expect(cs, q, ",\"created_at\":")?;
    proof {
        assert forall|e: EntryView| #[trigger] entry_at(cs@, pos as int, e) implies q == pos
            + entry_mark(e, 3) && holds_at(cs@, q as int, json_string(e.created_at.text())) by {
            lemma_entry_layout(cs@, pos as int, e);
            reveal_with_fuel(entry_mark, 4);
        }
    }
    let (stamp, q) = read_string(cs, q)?;
    proof {
        assert forall|e: EntryView| #[trigger] entry_at(cs@, pos as int, e) implies stamp@
            == e.created_at.text() && q == pos + entry_mark(e, 4) && holds_at(
            cs@,
            q as int,
            entry_piece(e, 4),
        ) by {
            lemma_entry_layout(cs@, pos as int, e);
            reveal_with_fuel(entry_mark, 5);
        }
    }
    let created_at = read_timestamp(&stamp)?;
    let q = expect(cs, q, ",\"content\":")?;
    proof {
        assert forall|e: EntryView| #[trigger] entry_at(cs@, pos as int, e) implies created_at
            == e.created_at && q == pos + entry_mark(e, 5) && holds_at(
            cs@,
            q as int,
            json_string(e.content),
        ) by {
            lemma_entry_layout(cs@, pos as int, e);
            reveal_with_fuel(entry_mark, 6);
        }
    }
    let (content, q) = read_string(cs, q)?;
    proof {
        assert forall|e: EntryView| #[trigger] entry_at(cs@, pos as int, e) implies content@
            == e.content && q == pos + entry_mark(e, 6) && holds_at(cs@, q as int, entry_piece(e, 6))
            by {
            lemma_entry_layout(cs@, pos as int, e);
            reveal_with_fuel(entry_mark, 7);
        }
    }
    let q = expect(cs, q, ",\"media\":")?;
    proof {
        assert forall|e: EntryView| #[trigger] entry_at(cs@, pos as int, e) implies q == pos
            + entry_mark(e, 7) && holds_at(cs@, q as int, json_strings(e.media)) by {
            lemma_entry_layout(cs@, pos as int, e);
            reveal_with_fuel(entry_mark, 8);
        }
    }
    let (media, q) = read_strings(cs, q)?;
    proof {
        assert forall|e: EntryView| #[trigger] entry_at(cs@, pos as int, e) implies strings_view(
            media@,
        ) == e.media && q == pos + entry_mark(e, 8) && holds_at(cs@, q as int, entry_piece(e, 8))
            by {
            lemma_entry_layout(cs@, pos as int, e);
            reveal_with_fuel(entry_mark, 9);
        }
    }
    let q = expect(cs, q, ",\"tags\":")?;
    proof {
        assert forall|e: EntryView| #[trigger] entry_at(cs@, pos as int, e) implies q == pos
            + entry_mark(e, 9) && holds_at(cs@, q as int, json_strings(e.tags)) by {
            lemma_entry_layout(cs@, pos as int, e);
            reveal_with_fuel(entry_mark, 10);
        }
    }
    let (tags, q) = read_strings(cs, q)?;
    proof {
        assert forall|e: EntryView| #[trigger] entry_at(cs@, pos as int, e) implies strings_view(
            tags@,
        ) == e.tags && q == pos + entry_mark(e, 10) && holds_at(cs@, q as int, entry_piece(e, 10))
            by {
            lemma_entry_layout(cs@, pos as int, e);
            reveal_with_fuel(entry_mark, 11);
        }
    }
    let q = expect(cs, q, "}")?;
    let r = Entry { id, created_at, content, media, tags };
    proof {
        assert forall|e: EntryView| #[trigger] entry_at(cs@, pos as int, e) implies r@ == e && q
            == pos + json_entry(e).len() by {
            lemma_entry_layout(cs@, pos as int, e);
            reveal_with_fuel(entry_mark, 12);
        }
    }
    Some((r, q))
}

/// Reads one entry from its JSON object, as `render` writes it: the entry
/// whose object `text` is, and nothing when `text` is no entry's object.
pub fn parse_entry(text: &str) -> (r: Option<Entry>)
    ensures
        r matches Some(e) ==> e.created_at.valid() && json_entry(e@) == text@,
        forall|e: EntryView|
            e.created_at.valid() && #[trigger] json_entry(e) == text@ ==> (r matches Some(en)
                && en@ == e),
{
    let cs = chars_of(text);
    proof {
        assert forall|e: EntryView| e.created_at.valid() && #[trigger] json_entry(e) == text@
            implies entry_at(cs@, 0, e) by {
            assert(cs@.subrange(0, cs@.len() as int) =~= cs@);
        }
    }
    let (e, end) = read_entry(&cs, 0)?;
    if end != cs.len() {
        return None;
    }
    let mut again: Vec<char> = Vec::new();
    push_json_entry(&mut again, &e);
    if same_chars(&again, &cs) {
        Some(e)
    } else {
        None
    }
}

/// Reads entries from a JSON array, as `render` writes it in the JSON format.
/// Only text that is exactly the rendering of the entries returned is
/// accepted; anything else fails with a storage error. The rendering of any
/// entries reads back as those entries.
pub fn parse_entries(text: &str) -> (r: Result<Vec<Entry>, JournalError>)
    ensures
        r matches Ok(v) ==> all_valid(entries_view(v@)) && rendered(entries_view(v@), Format::Json)
            == text@,
        r matches Err(x) ==> x == JournalError::Storage,
        forall|es: Seq<EntryView>|
            all_valid(es) && #[trigger] rendered(es, Format::Json) == text@ ==> (r matches Ok(v)
                && entries_view(v@) == es),
{
    let cs = chars_of(text);
    let mut v: Vec<Entry> = Vec::new();
    proof {
        assert forall|es: Seq<EntryView>| all_valid(es) && #[trigger] rendered(es, Format::Json)
            == text@ implies holds_at(cs@, 0, json_entries(es)) by {
            assert(cs@.subrange(0, cs@.len() as int) =~= cs@);
        }
    }
    if cs.len() < 2 || cs[0] != '[' {
        proof {
            assert forall|es: Seq<EntryView>| all_valid(es) && #[trigger] rendered(es, Format::Json)
                == text@ implies false by {
                lemma_list_start(cs@, 0, json_entry_items(es));
            }
        }
        return Err(JournalError::Storage);
    }
    if cs[1] != ']' {
        let mut q: usize = 1;
        proof {
            assert forall|es: Seq<EntryView>| all_valid(es) && #[trigger] rendered(es, Format::Json)
                == text@ implies (v@.len() < es.len() && entries_view(v@) == es.take(v@.len() as int)
                && q == 1 + joined(json_entry_items(es).take(v@.len() as int), seq![], seq![',']).len()
                + (if v@.len() == 0 {
                0int
            } else {
                1
            })) by {
                lemma_list_start(cs@, 0, json_entry_items(es));
                if es.len() == 0 {
                    assert(false);
                }
                assert(entries_view(v@) =~= es.take(0));
                assert(json_entry_items(es).take(0) =~= Seq::<Seq<char>>::empty());
            }
        }
        loop
            invariant_except_break
                forall|es: Seq<EntryView>|
                    all_valid(es) && #[trigger] rendered(es, Format::Json) == text@ ==> (v@.len()
                        < es.len() && entries_view(v@) == es.take(v@.len() as int) && q == 1
                        + joined(json_entry_items(es).take(v@.len() as int), seq![], seq![',']).len()
                        + (if v@.len() == 0 {
                        0int
                    } else {
                        1
                    })),
            invariant
                0 < q <= cs@.len(),
                cs@ == text@,
                all_valid(entries_view(v@)),
            ensures
                cs@ == text@,
                all_valid(entries_view(v@)),
                forall|es: Seq<EntryView>|
                    all_valid(es) && #[trigger] rendered(es, Format::Json) == text@ ==> entries_view(
                        v@,
                    ) == es,
            decreases cs@.len() - q,
        {
            let ghost k = v@.len() as int;
            let ghost before = v@;
            proof {
                assert forall|es: Seq<EntryView>| all_valid(es) && #[trigger] rendered(
                    es,
                    Format::Json,
                ) == text@ implies entry_at(cs@, q as int, es[k]) by {
                    lemma_holds_whole(cs@);
                    lemma_list_item(cs@, 0, json_entry_items(es), k);
                }
            }
            let (e, after) = match read_entry(&cs, q) {
                Some(x) => x,
                None => {
                    return Err(JournalError::Storage);
                },
            };
            v.push(e);
            assert(all_valid(entries_view(v@))) by {
                assert forall|j: int| 0 <= j < v@.len() implies (#[trigger] entries_view(
                    v@,
                )[j]).created_at.valid() by {
                    if j < before.len() {
                        assert(entries_view(v@)[j] == entries_view(before)[j]);
                    }
                }
            }
            proof {
                assert forall|es: Seq<EntryView>| all_valid(es) && #[trigger] rendered(
                    es,
                    Format::Json,
                ) == text@ implies (entries_view(v@) == es.take(k + 1) && after == 1 + joined(
                    json_entry_items(es).take(k + 1),
                    seq![],
                    seq![','],
                ).len()) by {
                    lemma_holds_whole(cs@);
                    lemma_list_item(cs@, 0, json_entry_items(es), k);
                    assert(entries_view(v@) =~= es.take(k + 1));
                }
            }
            if after < cs.len() && cs[after] == ']' {
                proof {
                    assert forall|es: Seq<EntryView>| all_valid(es) && #[trigger] rendered(
                        es,
                        Format::Json,
                    ) == text@ implies entries_view(v@) == es by {
                        lemma_holds_whole(cs@);
                    lemma_list_item(cs@, 0, json_entry_items(es), k);
                        if k + 1 < es.len() {
                            assert(false);
                        }
                        assert(es.take(k + 1) =~= es);
                    }
                }
                break ;
            }
            if after >= cs.len() || cs[after] != ',' || after + 1 >= cs.len() {
                proof {
                    assert forall|es: Seq<EntryView>| all_valid(es) && #[trigger] rendered(
                        es,
                        Format::Json,
                    ) == text@ implies false by {
                        lemma_holds_whole(cs@);
                    lemma_list_item(cs@, 0, json_entry_items(es), k);
                        if k + 1 < es.len() {
                            lemma_list_item(cs@, 0, json_entry_items(es), k + 1);
                        }
                    }
                }
                return Err(JournalError::Storage);
            }
            q = after + 1;
            proof {
                assert forall|es: Seq<EntryView>| all_valid(es) && #[trigger] rendered(
                    es,
                    Format::Json,
                ) == text@ implies (v@.len() < es.len() && entries_view(v@) == es.take(
                    v@.len() as int,
                ) && q == 1 + joined(json_entry_items(es).take(v@.len() as int), seq![], seq![',']).len()
                    + 1) by {
                    lemma_holds_whole(cs@);
                    lemma_list_item(cs@, 0, json_entry_items(es), k);
                    if k + 1 == es.len() {
                        assert(false);
                    }
                }
            }
        }
    } else {
        proof {
            assert forall|es: Seq<EntryView>| all_valid(es) && #[trigger] rendered(es, Format::Json)
                == text@ implies entries_view(v@) == es by {
                lemma_list_start(cs@, 0, json_entry_items(es));
                if es.len() > 0 {
                    reveal(json_entry);
                    reveal_strlit("{\"id\":");
                    lemma_holds_index(cs@, 1, json_entry(es[0]), 0);
                }
                assert(entries_view(v@) =~= es);
            }
        }
    }
    let mut again: Vec<char> = Vec::new();
    push_rendered(&mut again, &v, Format::Json);
    if same_chars(&again, &cs) {
        Ok(v)
    } else {
        Err(JournalError::Storage)
    }
}

} // verus!
