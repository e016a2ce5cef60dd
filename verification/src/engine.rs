//! What the engine reports: evaluations, scored moves, and the reading of
//! its UCI `info` lines.

use vstd::prelude::*;
use crate::text::{ws_tokens, split_ws, str_eq, spec_parse_u32, spec_parse_i32, parse_u32, parse_i32, trim, trim_ws, starts_with, str_starts_with};
use crate::reachability::texts;

verus! {

/// An engine evaluation from the side to move: centipawns, or mate in a
/// number of moves (negative when the side to move is mated).
#[derive(Debug, Clone, Copy, PartialEq, Eq, Structural)]
pub enum Evaluation {
    Cp(i32),
    Mate(i32),
}

/// The value of an evaluation in hundredths of a pawn: a mate in `m` is
/// worth `100 - m` pawns, being mated in `m` is worth `-100 - m` pawns.
pub open spec fn centipawns(e: Evaluation) -> int {
    match e {
        Evaluation::Cp(cp) => cp as int,
        Evaluation::Mate(m) => if m > 0 {
            (100 - m) * 100
        } else {
            (-100 - m) * 100
        },
    }
}

impl Evaluation {
    /// The evaluation in hundredths of a pawn.
    pub fn to_centipawns(&self) -> (r: i64)
        ensures
            r == centipawns(*self),
    {
        match self {
            Evaluation::Cp(cp) => *cp as i64,
            Evaluation::Mate(m) => {
                if *m > 0 {
                    (100 - *m as i64) * 100
                } else {
                    (-100 - *m as i64) * 100
                }
            },
        }
    }
}

/// A move proposed by the engine, its evaluation and its principal
/// variation (which starts with the move).
#[derive(Debug, Clone, PartialEq)]
pub struct ScoredMove {
    pub uci: String,
    pub eval: Evaluation,
    pub pv: Vec<String>,
}


/// What the reading of an `info` line has gathered: the `multipv` number,
/// the score's type and value, and the principal variation.
pub type InfoFields = (Option<u32>, Option<Seq<char>>, Option<i32>, Seq<Seq<char>>);

/// Reads the tokens `t` from index `i` on: `multipv N` sets the number,
/// `score T V` the score's type and value (a later occurrence replaces an
/// earlier one), `pv` takes every remaining token as the variation and
/// ends the reading; other tokens are skipped, and so is a keyword that
/// lacks its values.
pub open spec fn info_scan(t: Seq<Seq<char>>, i: int, st: InfoFields) -> InfoFields
    decreases t.len() - i,
{
    if i < 0 || i >= t.len() {
        st
    } else if t[i] == "multipv"@ {
        if i + 1 < t.len() {
            info_scan(t, i + 2, (spec_parse_u32(t[i + 1]), st.1, st.2, st.3))
        } else {
            info_scan(t, i + 1, st)
        }
    } else if t[i] == "score"@ {
        if i + 2 < t.len() {
            info_scan(t, i + 3, (st.0, Some(t[i + 1]), spec_parse_i32(t[i + 2]), st.3))
        } else {
            info_scan(t, i + 1, st)
        }
    } else if t[i] == "pv"@ {
        (st.0, st.1, st.2, t.subrange(i + 1, t.len() as int))
    } else {
        info_scan(t, i + 1, st)
    }
}

/// The multipv number, evaluation and variation of an engine `info`
/// line, when it has a number, a `cp` or `mate` score and a non-empty
/// variation.
pub open spec fn info_line(line: Seq<char>) -> Option<(u32, Evaluation, Seq<Seq<char>>)> {
    let f = info_scan(ws_tokens(line), 0, (None, None, None, Seq::empty()));
    if f.0 is Some && f.1 is Some && f.2 is Some && f.3.len() > 0 {
        if f.1.unwrap() == "cp"@ {
            Some((f.0.unwrap(), Evaluation::Cp(f.2.unwrap()), f.3))
        } else if f.1.unwrap() == "mate"@ {
            Some((f.0.unwrap(), Evaluation::Mate(f.2.unwrap()), f.3))
        } else {
            None
        }
    } else {
        None
    }
}

/// Where each field of a scan from index `i` comes from: it is the one it
/// started with, or it was read from tokens at or after `i` (the
/// variation: every token after a `pv`; the number: the token after a
/// `multipv`; the score: the two tokens after a `score`).
proof fn lemma_info_scan_sources(t: Seq<Seq<char>>, i: int, st: InfoFields)
    requires
        0 <= i,
    ensures
        ({
            let r = info_scan(t, i, st);
            &&& r.3 == st.3 || exists|k: int| i <= k < t.len() && #[trigger] t[k] == "pv"@ && r.3 == t.subrange(k + 1, t.len() as int)
            &&& r.0 == st.0 || exists|k: int| i <= k && k + 1 < t.len() && #[trigger] t[k] == "multipv"@ && r.0 == spec_parse_u32(t[k + 1])
            &&& (r.1 == st.1 && r.2 == st.2) || exists|k: int|
                i <= k && k + 2 < t.len() && #[trigger] t[k] == "score"@ && r.1 == Some(t[k + 1]) && r.2 == spec_parse_i32(t[k + 2])
        }),
    decreases t.len() - i,
{
    if i < t.len() {
        if t[i] == "multipv"@ {
            if i + 1 < t.len() {
                lemma_info_scan_sources(t, i + 2, (spec_parse_u32(t[i + 1]), st.1, st.2, st.3));
            } else {
                lemma_info_scan_sources(t, i + 1, st);
            }
        } else if t[i] == "score"@ {
            if i + 2 < t.len() {
                lemma_info_scan_sources(t, i + 3, (st.0, Some(t[i + 1]), spec_parse_i32(t[i + 2]), st.3));
            } else {
                lemma_info_scan_sources(t, i + 1, st);
            }
        } else if t[i] == "pv"@ {
        } else {
            lemma_info_scan_sources(t, i + 1, st);
        }
    }
}

/// What a read `info` line holds: a non-empty variation, which is every
/// token after a `pv` token; a number read from the token after a
/// `multipv`; and a `cp` or `mate` score read from the two tokens after a
/// `score`.
pub proof fn lemma_info_line_fields(line: Seq<char>)
    requires
        info_line(line) is Some,
    ensures
        ({
            let t = ws_tokens(line);
            let x = info_line(line).unwrap();
            &&& x.2.len() > 0
            &&& exists|k: int| 0 <= k < t.len() && #[trigger] t[k] == "pv"@ && x.2 == t.subrange(k + 1, t.len() as int)
            &&& exists|k: int| 0 <= k && k + 1 < t.len() && #[trigger] t[k] == "multipv"@ && spec_parse_u32(t[k + 1]) == Some(x.0)
            &&& exists|k: int| 0 <= k && k + 2 < t.len() && #[trigger] t[k] == "score"@ && spec_parse_i32(t[k + 2]) is Some && {
                let v = spec_parse_i32(t[k + 2]).unwrap();
                ||| t[k + 1] == "cp"@ && x.1 == Evaluation::Cp(v)
                ||| t[k + 1] == "mate"@ && x.1 == Evaluation::Mate(v)
            }
        }),
{
    let t = ws_tokens(line);
    lemma_info_scan_sources(t, 0, (None, None, None, Seq::empty()));
}

/// A copy of `v[from..]`.
fn clone_tail(v: &Vec<String>, from: usize) -> (r: Vec<String>)
    requires
        from <= v@.len(),
    ensures
        texts(r@) == texts(v@).subrange(from as int, v@.len() as int),
{
    let mut r: Vec<String> = Vec::new();
    let mut k: usize = from;
    while k < v.len()
        invariant
            from <= k <= v@.len(),
            texts(r@) == texts(v@).subrange(from as int, k as int),
        decreases v@.len() - k,
    {
        let ghost before = r@;
        r.push(v[k].clone());
        proof {
            assert(texts(r@) =~= texts(before).push(v@[k as int]@));
            assert(texts(r@) =~= texts(v@).subrange(from as int, k + 1));
        }
        k = k + 1;
    }
    r
}

/// Reads an engine `info` line: its multipv number and the scored move
/// (the first move of the variation, the evaluation, the variation).
pub fn parse_info_line(line: &str) -> (r: Option<(u32, ScoredMove)>)
    ensures
        r is None <==> info_line(line@) is None,
        r matches Some(x) ==> ({
            let spec_r = info_line(line@).unwrap();
            &&& x.0 == spec_r.0
            &&& x.1.eval == spec_r.1
            &&& texts(x.1.pv@) == spec_r.2
            &&& x.1.uci@ == spec_r.2[0]
        }),
{
    let tokens = split_ws(line);
    let ghost t = texts(tokens@);
    proof {
        assert(t == ws_tokens(line@));
    }
    let ghost init: InfoFields = (None, None, None, Seq::empty());
    let mut multipv: Option<u32> = None;
    let mut score_type: Option<usize> = None;
    let mut score_val: Option<i32> = None;
    let mut pv: Vec<String> = Vec::new();
    let mut i: usize = 0;
    proof {
        assert(texts(pv@) =~= Seq::<Seq<char>>::empty());
    }
    while i < tokens.len()
        invariant
            i <= tokens@.len(),
            t == texts(tokens@),
            info_scan(t, 0, init) == info_scan(t, i as int, (multipv, match score_type { Some(k) => Some(t[k as int]), None => None }, score_val, texts(pv@))),
            score_type matches Some(k) ==> k < tokens@.len(),
        decreases tokens@.len() - i,
    {
        let tok = tokens[i].as_str();
        assert(t[i as int] == tok@);
        if str_eq(tok, "multipv") {
            if tokens.len() - i > 1 {
                multipv = parse_u32(tokens[i + 1].as_str());
                i = i + 2;
            } else {
                i = i + 1;
            }
        } else if str_eq(tok, "score") {
            if tokens.len() - i > 2 {
                score_type = Some(i + 1);
                score_val = parse_i32(tokens[i + 2].as_str());
                i = i + 3;
            } else {
                i = i + 1;
            }
        } else if str_eq(tok, "pv") {
            pv = clone_tail(&tokens, i + 1);
            i = tokens.len();
        } else {
            i = i + 1;
        }
    }
    match (multipv, score_type, score_val) {
        (Some(mpv), Some(k), Some(sval)) => {
            if pv.len() == 0 {
                return None;
            }
            let stype = tokens[k].as_str();
            let eval = if str_eq(stype, "cp") {
                Evaluation::Cp(sval)
            } else if str_eq(stype, "mate") {
                Evaluation::Mate(sval)
            } else {
                return None;
            };
            let uci = pv[0].clone();
            proof {
                assert(texts(pv@)[0] == pv@[0]@);
            }
            Some((mpv, ScoredMove { uci, eval, pv }))
        },
        _ => None,
    }
}


/// The engine's answer ends with a line starting with `bestmove`
/// (after trimming).
pub open spec fn is_bestmove(line: Seq<char>) -> bool {
    starts_with(trim_ws(line), "bestmove"@)
}

/// Whether `line` is the engine's `bestmove` line, which ends an answer.
pub fn is_bestmove_line(line: &str) -> (r: bool)
    ensures
        r == is_bestmove(line@),
{
    let t = trim(line);
    str_starts_with(t.as_str(), "bestmove")
}

/// The scored moves of an answer, by multipv number, after the lines
/// `lines[i..]` have been read into `m`: up to the first `bestmove` line,
/// every `info` line (after trimming) that reads as a scored move replaces
/// the entry of its number.
pub open spec fn multipv_table(
    lines: Seq<Seq<char>>,
    i: int,
    m: Map<u32, (Evaluation, Seq<Seq<char>>)>,
) -> Map<u32, (Evaluation, Seq<Seq<char>>)>
    decreases lines.len() - i,
{
    if i < 0 || i >= lines.len() || is_bestmove(lines[i]) {
        m
    } else {
        let l = trim_ws(lines[i]);
        let m2 = if starts_with(l, "info"@) && info_line(l) is Some {
            let x = info_line(l).unwrap();
            m.insert(x.0, (x.1, x.2))
        } else {
            m
        };
        multipv_table(lines, i + 1, m2)
    }
}

/// The table that a list of entries holds.
pub open spec fn entries_table(v: Seq<(u32, ScoredMove)>) -> Map<u32, (Evaluation, Seq<Seq<char>>)> {
    Map::new(
        |k: u32| exists|j: int| 0 <= j < v.len() && #[trigger] v[j].0 == k,
        |k: u32| {
            let j = choose|j: int| 0 <= j < v.len() && #[trigger] v[j].0 == k;
            (v[j].1.eval, texts(v[j].1.pv@))
        },
    )
}

/// The entries' numbers strictly increase, and each move is the first of
/// its variation.
pub open spec fn entries_ok(v: Seq<(u32, ScoredMove)>) -> bool {
    &&& forall|a: int, b: int| 0 <= a < b < v.len() ==> (#[trigger] v[a]).0 < (#[trigger] v[b]).0
    &&& forall|a: int| 0 <= a < v.len() ==> texts((#[trigger] v[a]).1.pv@).len() > 0 && v[a].1.uci@ == texts(v[a].1.pv@)[0]
}

/// `moves` holds the entries of `table` in increasing order of their
/// numbers `keys`, each move being the first of its variation.
pub open spec fn listed_by_number(keys: Seq<u32>, moves: Seq<ScoredMove>, table: Map<u32, (Evaluation, Seq<Seq<char>>)>) -> bool {
    &&& keys.len() == moves.len()
    &&& forall|a: int, b: int| 0 <= a < b < keys.len() ==> #[trigger] keys[a] < #[trigger] keys[b]
    &&& keys.to_set() == table.dom()
    &&& forall|a: int| 0 <= a < keys.len() ==> table[#[trigger] keys[a]] == (moves[a].eval, texts(moves[a].pv@))
        && moves[a].uci@ == texts(moves[a].pv@)[0]
}

/// The scored moves that the engine reported in the lines of one answer
/// (up to the `bestmove` line), the last report of each multipv number,
/// in increasing order of that number.
pub fn scored_moves_from_lines(lines: &Vec<String>) -> (r: Vec<ScoredMove>)
    ensures
        exists|keys: Seq<u32>| #[trigger] listed_by_number(keys, r@, multipv_table(texts(lines@), 0, Map::empty())),
{
    let ghost ls = texts(lines@);
    let mut entries: Vec<(u32, ScoredMove)> = Vec::new();
    let mut i: usize = 0;
    let mut stopped = false;
    proof {
        assert(entries_table(entries@) =~= Map::empty());
    }
    while i < lines.len() && !stopped
        invariant
            i <= lines@.len(),
            ls == texts(lines@),
            entries_ok(entries@),
            stopped ==> i < lines@.len() && is_bestmove(ls[i as int]),
            multipv_table(ls, 0, Map::empty()) == multipv_table(ls, i as int, entries_table(entries@)),
        decreases lines@.len() - i + (if stopped { 0int } else { 1int }),
    {
        assert(ls[i as int] == lines@[i as int]@);
        if is_bestmove_line(lines[i].as_str()) {
            stopped = true;
        } else {
            let l = trim(lines[i].as_str());
            let parsed = if str_starts_with(l.as_str(), "info") {
                parse_info_line(l.as_str())
            } else {
                None
            };
            match parsed {
                Some((mpv, sm)) => {
                    let ghost before = entries@;
                    let mut j: usize = 0;
                    while j < entries.len() && entries[j].0 < mpv
                        invariant
                            j <= entries@.len(),
                            entries@ == before,
                            forall|a: int| 0 <= a < j ==> (#[trigger] entries@[a]).0 < mpv,
                        decreases entries@.len() - j,
                    {
                        j = j + 1;
                    }
                    let ghost x = (sm.eval, texts(sm.pv@));
                    if j < entries.len() && entries[j].0 == mpv {
                        entries.set(j, (mpv, sm));
                        proof {
                            assert(entries_table(entries@) =~= entries_table(before).insert(mpv, x)) by {
                                assert forall|k: u32| #[trigger] entries_table(entries@).contains_key(k) <==> entries_table(before).insert(mpv, x).contains_key(k) by {
                                    if entries_table(before).contains_key(k) {
                                        let a = choose|a: int| 0 <= a < before.len() && #[trigger] before[a].0 == k;
                                        assert(entries@[a].0 == k);
                                    }
                                    if entries_table(entries@).contains_key(k) {
                                        let a = choose|a: int| 0 <= a < entries@.len() && #[trigger] entries@[a].0 == k;
                                        assert(before[a].0 == k);
                                    }
                                    assert(entries@[j as int].0 == mpv);
                                }
                                assert forall|k: u32| #[trigger] entries_table(entries@).contains_key(k) implies entries_table(entries@)[k] == entries_table(before).insert(mpv, x)[k] by {
                                    let a = choose|a: int| 0 <= a < entries@.len() && #[trigger] entries@[a].0 == k;
                                    if k == mpv {
                                        assert(a == j);
                                    } else {
                                        let a2 = choose|a2: int| 0 <= a2 < before.len() && #[trigger] before[a2].0 == k;
                                        assert(a2 == a) by {
                                            if a2 < a { assert(before[a2].0 < before[a].0); }
                                            if a < a2 { assert(before[a].0 < before[a2].0); }
                                        }
                                    }
                                }
                            }
                        }
                    } else {
                        entries.insert(j, (mpv, sm));
                        proof {
                            assert forall|a: int, b: int| 0 <= a < b < entries@.len() implies (#[trigger] entries@[a]).0 < (#[trigger] entries@[b]).0 by {
                                if a < j && b > j {
                                    assert(entries@[b] == before[b - 1]);
                                    assert(before[a].0 < mpv);
                                } else if a == j {
                                    assert(entries@[b] == before[b - 1]);
                                    assert(before[j as int].0 >= mpv);
                                    if b - 1 > j {
                                        assert(before[j as int].0 < before[b - 1].0);
                                    }
                                } else if b < j {
                                    assert(entries@[a] == before[a] && entries@[b] == before[b]);
                                } else if b == j {
                                    assert(entries@[a] == before[a]);
                                } else {
                                    assert(entries@[a] == before[a - 1] && entries@[b] == before[b - 1]);
                                }
                            }
                            assert(entries_table(entries@) =~= entries_table(before).insert(mpv, x)) by {
                                assert forall|k: u32| #[trigger] entries_table(entries@).contains_key(k) <==> entries_table(before).insert(mpv, x).contains_key(k) by {
                                    if entries_table(before).contains_key(k) {
                                        let a = choose|a: int| 0 <= a < before.len() && #[trigger] before[a].0 == k;
                                        if a < j {
                                            assert(entries@[a].0 == k);
                                        } else {
                                            assert(entries@[a + 1].0 == k);
                                        }
                                    }
                                    if entries_table(entries@).contains_key(k) && k != mpv {
                                        let a = choose|a: int| 0 <= a < entries@.len() && #[trigger] entries@[a].0 == k;
                                        if a < j {
                                            assert(before[a].0 == k);
                                        } else {
                                            assert(a != j);
                                            assert(before[a - 1].0 == k);
                                        }
                                    }
                                    assert(entries@[j as int].0 == mpv);
                                }
                                assert forall|k: u32| #[trigger] entries_table(entries@).contains_key(k) implies entries_table(entries@)[k] == entries_table(before).insert(mpv, x)[k] by {
                                    let a = choose|a: int| 0 <= a < entries@.len() && #[trigger] entries@[a].0 == k;
                                    if k == mpv {
                                        assert(a == j) by {
                                            if a < j { assert(entries@[a].0 < mpv); }
                                            if a > j { assert(entries@[j as int].0 < entries@[a].0); }
                                        }
                                    } else {
                                        let a2 = choose|a2: int| 0 <= a2 < before.len() && #[trigger] before[a2].0 == k;
                                        let a3 = if a < j { a } else { a - 1 };
                                        assert(before[a3] == entries@[a]);
                                        assert(a2 == a3) by {
                                            if a2 < a3 { assert(before[a2].0 < before[a3].0); }
                                            if a3 < a2 { assert(before[a3].0 < before[a2].0); }
                                        }
                                    }
                                }
                            }
                        }
                    }
                },
                None => {},
            }
            i = i + 1;
        }
    }
    let ghost all = entries@;
    let mut backwards: Vec<ScoredMove> = Vec::new();
    while entries.len() > 0
        invariant
            entries@ == all.take(entries@.len() as int),
            entries@.len() + backwards@.len() == all.len(),
            forall|a: int| 0 <= a < backwards@.len() ==> #[trigger] backwards@[a] == all[all.len() - 1 - a].1,
        decreases entries@.len(),
    {
        let e = entries.pop().unwrap();
        backwards.push(e.1);
        proof {
            assert(entries@ =~= all.take(entries@.len() as int));
        }
    }
    let mut r: Vec<ScoredMove> = Vec::new();
    while backwards.len() > 0
        invariant
            backwards@.len() + r@.len() == all.len(),
            forall|a: int| 0 <= a < backwards@.len() ==> #[trigger] backwards@[a] == all[all.len() - 1 - a].1,
            forall|a: int| 0 <= a < r@.len() ==> #[trigger] r@[a] == all[a].1,
        decreases backwards@.len(),
    {
        let m = backwards.pop().unwrap();
        r.push(m);
    }
    proof {
        let keys = all.map_values(|e: (u32, ScoredMove)| e.0);
        let table = multipv_table(ls, 0, Map::empty());
        assert(table == entries_table(all));
        assert(keys.to_set() =~= table.dom()) by {
            assert forall|q: u32| keys.to_set().contains(q) <==> table.dom().contains(q) by {
                if table.dom().contains(q) {
                    let a = choose|a: int| 0 <= a < all.len() && #[trigger] all[a].0 == q;
                    assert(keys[a] == q);
                }
            }
        }
        assert forall|a: int| 0 <= a < keys.len() implies table[#[trigger] keys[a]] == (r@[a].eval, texts(r@[a].pv@)) && r@[a].uci@ == texts(r@[a].pv@)[0] by {
            let a2 = choose|a2: int| 0 <= a2 < all.len() && #[trigger] all[a2].0 == keys[a];
            assert(a2 == a) by {
                if a2 < a { assert(all[a2].0 < all[a].0); }
                if a < a2 { assert(all[a].0 < all[a2].0); }
            }
        }
        assert(listed_by_number(keys, r@, table));
    }
    r
}

} // verus!
