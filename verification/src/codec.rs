//! The persisted document: a JSON-shaped byte format for the frame graph.
//!
//! A graph is written as `{"nodes":[...],"edges":[...]}`: the frame names in
//! creation order, each a quoted string with `"` and `\` escaped, then the
//! edges in creation order, each `[a,b,[t0,...,t6]]` — the two endpoint
//! positions, source first (which carries the edge's canonical direction),
//! and the transform's canonical 7-component form. The seven numbers are the
//! components' IEEE 754 bit patterns written as decimal integers, so a dump
//! followed by a load reproduces every transform bit for bit.

use vstd::prelude::*;

use vstd::slice::slice_subrange;

use crate::bytes_eq;
use crate::graph::Edge;
use crate::se3::Se3;

verus! {

/// How one byte of a frame name is written: `"` and `\` get a backslash.
pub open spec fn esc_byte(b: u8) -> Seq<u8> {
    if b == 34 || b == 92 {
        seq![92u8, b]
    } else {
        seq![b]
    }
}

/// A frame name with its quotes' and backslashes' escapes.
pub open spec fn esc(s: Seq<u8>) -> Seq<u8>
    decreases s.len(),
{
    if s.len() == 0 {
        seq![]
    } else {
        esc(s.drop_last()) + esc_byte(s.last())
    }
}

/// A frame name as a quoted string.
pub open spec fn quoted(s: Seq<u8>) -> Seq<u8> {
    seq![34u8] + esc(s) + seq![34u8]
}

/// A number in decimal, without leading zeros.
pub open spec fn dec(n: u64) -> Seq<u8>
    decreases n,
{
    if n < 10 {
        seq![(48 + n) as u8]
    } else {
        dec(n / 10) + seq![(48 + n % 10) as u8]
    }
}

/// The comma-separated list of quoted frame names.
pub open spec fn names_doc(ns: Seq<Seq<u8>>) -> Seq<u8>
    decreases ns.len(),
{
    if ns.len() == 0 {
        seq![]
    } else if ns.len() == 1 {
        quoted(ns[0])
    } else {
        names_doc(ns.drop_last()) + seq![44u8] + quoted(ns.last())
    }
}

/// The comma-separated list of a transform's seven components.
pub open spec fn nums_doc(t: Seq<u64>) -> Seq<u8>
    decreases t.len(),
{
    if t.len() == 0 {
        seq![]
    } else if t.len() == 1 {
        dec(t[0])
    } else {
        nums_doc(t.drop_last()) + seq![44u8] + dec(t.last())
    }
}

/// One edge: `[a,b,[t0,t1,t2,t3,t4,t5,t6]]`.
pub open spec fn edge_doc(e: Edge) -> Seq<u8> {
    seq![91u8] + dec(e.a as u64) + seq![44u8] + dec(e.b as u64) + seq![44u8, 91u8] + nums_doc(
        e.tf@,
    ) + seq![93u8, 93u8]
}

/// The comma-separated list of edges.
pub open spec fn edges_doc(es: Seq<Edge>) -> Seq<u8>
    decreases es.len(),
{
    if es.len() == 0 {
        seq![]
    } else if es.len() == 1 {
        edge_doc(es[0])
    } else {
        edges_doc(es.drop_last()) + seq![44u8] + edge_doc(es.last())
    }
}

/// The opening bytes `{"nodes":[`.
pub open spec fn doc_head() -> Seq<u8> {
    seq![123u8, 34u8, 110u8, 111u8, 100u8, 101u8, 115u8, 34u8, 58u8, 91u8]
}

/// The middle bytes `],"edges":[`.
pub open spec fn doc_mid() -> Seq<u8> {
    seq![93u8, 44u8, 34u8, 101u8, 100u8, 103u8, 101u8, 115u8, 34u8, 58u8, 91u8]
}

/// The closing bytes `]}`.
pub open spec fn doc_tail() -> Seq<u8> {
    seq![93u8, 125u8]
}

/// The whole document of a graph.
pub open spec fn doc_of(ns: Seq<Seq<u8>>, es: Seq<Edge>) -> Seq<u8> {
    doc_head() + names_doc(ns) + doc_mid() + edges_doc(es) + doc_tail()
}

/// Appends a number in decimal.
fn push_dec(out: &mut Vec<u8>, n: u64)
    ensures
        final(out)@ == old(out)@ + dec(n),
    decreases n,
{
    if n < 10 {
        out.push(48 + (n as u8));
        proof {
            assert(out@ =~= old(out)@ + dec(n));
        }
    } else {
        push_dec(out, n / 10);
        out.push(48 + ((n % 10) as u8));
        proof {
            assert(out@ =~= old(out)@ + dec(n));
        }
    }
}

/// Appends a frame name as a quoted, escaped string.
fn push_quoted(out: &mut Vec<u8>, s: &Vec<u8>)
    ensures
        final(out)@ == old(out)@ + quoted(s@),
{
    out.push(34);
    let mut i: usize = 0;
    while i < s.len()
        invariant
            i <= s@.len(),
            out@ == old(out)@ + seq![34u8] + esc(s@.take(i as int)),
        decreases s@.len() - i,
    {
        let b = s[i];
        if b == 34 || b == 92 {
            out.push(92);
            out.push(b);
        } else {
            out.push(b);
        }
        proof {
            let t1 = s@.take(i + 1 as int);
            assert(t1.drop_last() =~= s@.take(i as int));
            assert(t1.last() == s@[i as int]);
            assert(out@ =~= old(out)@ + seq![34u8] + esc(t1));
        }
        i = i + 1;
    }
    out.push(34);
    proof {
        assert(s@.take(i as int) =~= s@);
        assert(out@ =~= old(out)@ + quoted(s@));
    }
}

/// Appends one edge.
fn push_edge(out: &mut Vec<u8>, e: &Edge)
    ensures
        final(out)@ == old(out)@ + edge_doc(*e),
{
    out.push(91);
    push_dec(out, e.a as u64);
    out.push(44);
    push_dec(out, e.b as u64);
    out.push(44);
    out.push(91);
    let ghost mark = out@;
    let mut j: usize = 0;
    while j < 7
        invariant
            j <= 7,
            out@ == mark + nums_doc(e.tf@.take(j as int)),
        decreases 7 - j,
    {
        if j > 0 {
            out.push(44);
        }
        push_dec(out, e.tf.v[j]);
        proof {
            let t1 = e.tf@.take(j + 1 as int);
            assert(t1.drop_last() =~= e.tf@.take(j as int));
            assert(t1.last() == e.tf@[j as int]);
            assert(out@ =~= mark + nums_doc(t1));
        }
        j = j + 1;
    }
    out.push(93);
    out.push(93);
    proof {
        assert(e.tf@.take(7) =~= e.tf@);
        assert(out@ =~= old(out)@ + edge_doc(*e));
    }
}

/// Whether `b` is a decimal digit.
pub open spec fn is_digit(b: u8) -> bool {
    48 <= b && b <= 57
}

/// The first position at or after `pos` that does not hold a digit.
pub open spec fn digits_end(d: Seq<u8>, pos: int) -> int
    decreases d.len() - pos,
{
    if pos < d.len() && is_digit(d[pos]) {
        digits_end(d, pos + 1)
    } else {
        pos
    }
}

/// The value of the digit run in `[pos, end)`.
pub open spec fn digits_val(d: Seq<u8>, pos: int, end: int) -> int
    decreases end - pos,
{
    if pos >= end {
        0
    } else {
        digits_val(d, pos, end - 1) * 10 + (d[end - 1] - 48)
    }
}

/// One reading of a number: the digit run starting at `pos`; `None` when no
/// digit stands there, when the run has a leading zero, or when its value
/// does not fit in 64 bits.
pub open spec fn spec_parse_dec(d: Seq<u8>, pos: int) -> Option<(u64, int)> {
    if 0 <= pos < d.len() && is_digit(d[pos]) {
        let end = digits_end(d, pos);
        let v = digits_val(d, pos, end);
        if (d[pos] == 48 && end != pos + 1) || v > u64::MAX {
            None
        } else {
            Some((v as u64, end))
        }
    } else {
        None
    }
}

/// One reading of a quoted name's body after the opening quote: bytes up to
/// the closing quote, a backslash escaping exactly `"` or `\`.
pub open spec fn spec_quoted_tail(d: Seq<u8>, pos: int) -> Option<(Seq<u8>, int)>
    decreases d.len() - pos,
{
    if !(0 <= pos < d.len()) {
        None
    } else if d[pos] == 34 {
        Some((seq![], pos + 1))
    } else if d[pos] == 92 {
        if pos + 1 < d.len() && (d[pos + 1] == 34 || d[pos + 1] == 92) {
            match spec_quoted_tail(d, pos + 2) {
                Some((s, e)) => Some((seq![d[pos + 1]] + s, e)),
                None => None,
            }
        } else {
            None
        }
    } else {
        match spec_quoted_tail(d, pos + 1) {
            Some((s, e)) => Some((seq![d[pos]] + s, e)),
            None => None,
        }
    }
}

/// One reading of a quoted name.
pub open spec fn spec_parse_quoted(d: Seq<u8>, pos: int) -> Option<(Seq<u8>, int)> {
    if 0 <= pos < d.len() && d[pos] == 34 {
        spec_quoted_tail(d, pos + 1)
    } else {
        None
    }
}

/// The transform whose canonical components are `t` (for a 7-component `t`
/// there is exactly one).
pub open spec fn se3_of(t: Seq<u64>) -> Se3 {
    choose|s: Se3| s@ == t
}

/// A parsed list tail appended to the entries already read.
pub open spec fn opt_prepend<A>(pre: Seq<A>, o: Option<(Seq<A>, int)>) -> Option<(Seq<A>, int)> {
    match o {
        Some((s, e)) => Some((pre + s, e)),
        None => None,
    }
}

/// One reading of `k` comma-separated numbers (a comma before each entry
/// but the first).
pub open spec fn spec_parse_nums(d: Seq<u8>, pos: int, k: nat, first: bool) -> Option<
    (Seq<u64>, int),
>
    decreases k,
{
    if k == 0 {
        Some((seq![], pos))
    } else if !first && !(0 <= pos < d.len() && d[pos] == 44) {
        None
    } else {
        let start = if first {
            pos
        } else {
            pos + 1
        };
        match spec_parse_dec(d, start) {
            Some((v, p1)) => opt_prepend(seq![v], spec_parse_nums(d, p1, (k - 1) as nat, false)),
            None => None,
        }
    }
}

/// One reading of an edge: `[a,b,[t0,...,t6]]` with endpoint positions that
/// fit a machine word.
pub open spec fn spec_parse_edge(d: Seq<u8>, pos: int) -> Option<(Edge, int)> {
    if !(0 <= pos < d.len() && d[pos] == 91) {
        None
    } else {
        match spec_parse_dec(d, pos + 1) {
            Some((a, p1)) => {
                if !(a <= usize::MAX && p1 < d.len() && d[p1] == 44) {
                    None
                } else {
                    match spec_parse_dec(d, p1 + 1) {
                        Some((b, p2)) => {
                            if !(b <= usize::MAX && p2 + 1 < d.len() && d[p2] == 44 && d[p2 + 1]
                                == 91) {
                                None
                            } else {
                                match spec_parse_nums(d, p2 + 2, 7, true) {
                                    Some((t, p3)) => {
                                        if p3 + 1 < d.len() && d[p3] == 93 && d[p3 + 1] == 93 {
                                            Some(
                                                (
                                                    Edge {
                                                        a: a as usize,
                                                        b: b as usize,
                                                        tf: se3_of(t),
                                                    },
                                                    p3 + 2,
                                                ),
                                            )
                                        } else {
                                            None
                                        }
                                    },
                                    None => None,
                                }
                            }
                        },
                        None => None,
                    }
                }
            },
            None => None,
        }
    }
}

proof fn lemma_quoted_tail_advances(d: Seq<u8>, pos: int)
    ensures
        spec_quoted_tail(d, pos) matches Some((s, e)) ==> pos < e <= d.len(),
    decreases d.len() - pos,
{
    if 0 <= pos < d.len() {
        if d[pos] == 92 {
            if pos + 1 < d.len() && (d[pos + 1] == 34 || d[pos + 1] == 92) {
                lemma_quoted_tail_advances(d, pos + 2);
            }
        } else if d[pos] != 34 {
            lemma_quoted_tail_advances(d, pos + 1);
        }
    }
}

proof fn lemma_digits_end_bounds(d: Seq<u8>, pos: int)
    requires
        0 <= pos <= d.len(),
    ensures
        pos <= digits_end(d, pos) <= d.len(),
    decreases d.len() - pos,
{
    if pos < d.len() && is_digit(d[pos]) {
        lemma_digits_end_bounds(d, pos + 1);
    }
}

proof fn lemma_parse_nums_advances(d: Seq<u8>, pos: int, k: nat, first: bool)
    requires
        0 <= pos <= d.len(),
    ensures
        spec_parse_nums(d, pos, k, first) matches Some((t, e)) ==> pos <= e <= d.len() && t.len()
            == k,
    decreases k,
{
    if k > 0 && (first || (pos < d.len() && d[pos] == 44)) {
        let start = if first {
            pos
        } else {
            pos + 1
        };
        match spec_parse_dec(d, start) {
            Some((v, p1)) => {
                lemma_digits_end_bounds(d, start);
                lemma_parse_nums_advances(d, p1, (k - 1) as nat, false);
            },
            None => {},
        }
    }
}

proof fn lemma_parse_edge_advances(d: Seq<u8>, pos: int)
    requires
        0 <= pos <= d.len(),
    ensures
        spec_parse_edge(d, pos) matches Some((e, end)) ==> pos < end <= d.len(),
{
    if 0 <= pos < d.len() && d[pos] == 91 {
        match spec_parse_dec(d, pos + 1) {
            Some((a, p1)) => {
                lemma_digits_end_bounds(d, pos + 1);
                if a <= usize::MAX && p1 < d.len() && d[p1] == 44 {
                    match spec_parse_dec(d, p1 + 1) {
                        Some((b, p2)) => {
                            lemma_digits_end_bounds(d, p1 + 1);
                            if b <= usize::MAX && p2 + 1 < d.len() && d[p2] == 44 && d[p2 + 1]
                                == 91 {
                                lemma_parse_nums_advances(d, p2 + 2, 7, true);
                            }
                        },
                        None => {},
                    }
                }
            },
            None => {},
        }
    }
}

/// One reading of the name list from its first entry on, continued as long
/// as a comma follows an entry (the comma stands at `pos` when `first` does
/// not hold).
pub open spec fn spec_parse_names(d: Seq<u8>, pos: int, first: bool) -> Option<
    (Seq<Seq<u8>>, int),
>
    decreases d.len() - pos,
    via spec_parse_names_dec
{
    let start = if first {
        pos
    } else {
        pos + 1
    };
    match spec_parse_quoted(d, start) {
        Some((nm, e)) => {
            if e < d.len() && d[e] == 44 {
                opt_prepend(seq![nm], spec_parse_names(d, e, false))
            } else {
                Some((seq![nm], e))
            }
        },
        None => None,
    }
}

#[via_fn]
proof fn spec_parse_names_dec(d: Seq<u8>, pos: int, first: bool) {
    let start = if first {
        pos
    } else {
        pos + 1
    };
    lemma_quoted_tail_advances(d, start + 1);
}

/// One reading of the edge list, continued like the name list.
pub open spec fn spec_parse_edges(d: Seq<u8>, pos: int, first: bool) -> Option<(Seq<Edge>, int)>
    decreases d.len() - pos,
    via spec_parse_edges_dec
{
    let start = if first {
        pos
    } else {
        pos + 1
    };
    match spec_parse_edge(d, start) {
        Some((ed, e)) => {
            if e < d.len() && d[e] == 44 {
                opt_prepend(seq![ed], spec_parse_edges(d, e, false))
            } else {
                Some((seq![ed], e))
            }
        },
        None => None,
    }
}

#[via_fn]
proof fn spec_parse_edges_dec(d: Seq<u8>, pos: int, first: bool) {
    let start = if first {
        pos
    } else {
        pos + 1
    };
    if 0 <= start <= d.len() {
        lemma_parse_edge_advances(d, start);
    }
}

/// The one reading of a whole document: the fixed opening, the name list
/// (possibly empty), the fixed middle, the edge list (possibly empty), the
/// fixed closing, and nothing after it. This grammar is what `parse_doc`
/// accepts; `dump_doc` writes within it, and `lemma_parse_of_doc` proves
/// that the one reading of a written document is the graph it came from.
pub open spec fn spec_parse_doc(d: Seq<u8>) -> Option<(Seq<Seq<u8>>, Seq<Edge>)> {
    if d.len() < 10 || d.subrange(0, 10) != doc_head() {
        None
    } else {
        let names_part = if 10 < d.len() && d[10] == 34 {
            spec_parse_names(d, 10, true)
        } else {
            Some((Seq::<Seq<u8>>::empty(), 10))
        };
        match names_part {
            None => None,
            Some((ns, p)) => {
                if !(p + 11 <= d.len() && d.subrange(p, p + 11) == doc_mid()) {
                    None
                } else {
                    let edges_part = if p + 11 < d.len() && d[p + 11] == 91 {
                        spec_parse_edges(d, p + 11, true)
                    } else {
                        Some((Seq::<Edge>::empty(), p + 11))
                    };
                    match edges_part {
                        None => None,
                        Some((es, p2)) => {
                            if p2 + 2 == d.len() && d[p2] == 93 && d[p2 + 1] == 125 {
                                Some((ns, es))
                            } else {
                                None
                            }
                        },
                    }
                }
            },
        }
    }
}

proof fn lemma_digits_end_at(d: Seq<u8>, pos: int, k: int)
    requires
        0 <= pos <= k <= d.len(),
        forall|j: int| pos <= j < k ==> is_digit(#[trigger] d[j]),
        k == d.len() || !is_digit(d[k]),
    ensures
        digits_end(d, pos) == k,
    decreases k - pos,
{
    if pos < k {
        lemma_digits_end_at(d, pos + 1, k);
    }
}

proof fn lemma_digits_end_lb(d: Seq<u8>, pos: int, k: int)
    requires
        0 <= pos <= k <= d.len(),
        forall|j: int| pos <= j < k ==> is_digit(#[trigger] d[j]),
    ensures
        digits_end(d, pos) >= k,
    decreases k - pos,
{
    if pos < k {
        assert(digits_end(d, pos) == digits_end(d, pos + 1));
        lemma_digits_end_lb(d, pos + 1, k);
    } else {
        lemma_digits_end_digits(d, pos);
    }
}

proof fn lemma_digits_end_digits(d: Seq<u8>, pos: int)
    requires
        0 <= pos <= d.len(),
    ensures
        forall|j: int| pos <= j < digits_end(d, pos) ==> is_digit(#[trigger] d[j]),
        pos <= digits_end(d, pos) <= d.len(),
    decreases d.len() - pos,
{
    if pos < d.len() && is_digit(d[pos]) {
        lemma_digits_end_digits(d, pos + 1);
    }
}

proof fn lemma_digits_val_nonneg(d: Seq<u8>, pos: int, end: int)
    requires
        0 <= pos,
        end <= d.len(),
        forall|j: int| pos <= j < end ==> is_digit(#[trigger] d[j]),
    ensures
        digits_val(d, pos, end) >= 0,
    decreases end - pos,
{
    if pos < end {
        lemma_digits_val_nonneg(d, pos, end - 1);
    }
}

proof fn lemma_digits_val_mono(d: Seq<u8>, pos: int, k: int, end: int)
    requires
        0 <= pos <= k <= end <= d.len(),
        forall|j: int| pos <= j < end ==> is_digit(#[trigger] d[j]),
    ensures
        digits_val(d, pos, end) >= digits_val(d, pos, k),
    decreases end - k,
{
    if k < end {
        lemma_digits_val_mono(d, pos, k, end - 1);
        lemma_digits_val_nonneg(d, pos, end - 1);
    }
}

/// Reads a decimal number. Accepts exactly the spellings `dec` writes: at
/// least one digit, no leading zero, a value that fits in 64 bits.
fn parse_dec(doc: &[u8], pos: usize) -> (r: Option<(u64, usize)>)
    requires
        pos <= doc@.len(),
    ensures
        r matches Some((n, end)) ==> pos < end <= doc@.len() && doc@.subrange(
            pos as int,
            end as int,
        ) == dec(n),
        (r is Some) == (spec_parse_dec(doc@, pos as int) is Some),
        r matches Some((n, end)) ==> spec_parse_dec(doc@, pos as int) == Some((n, end as int)),
{
    if pos >= doc.len() {
        return None;
    }
    let b0 = doc[pos];
    if b0 < 48 || b0 > 57 {
        return None;
    }
    let mut acc: u64 = (b0 - 48) as u64;
    let mut p: usize = pos + 1;
    proof {
        assert(doc@.subrange(pos as int, p as int) =~= dec(acc));
        assert(digits_val(doc@, pos as int, pos as int) == 0);
        assert(acc == digits_val(doc@, pos as int, p as int));
    }
    while p < doc.len() && doc[p] >= 48 && doc[p] <= 57
        invariant
            pos < p <= doc@.len(),
            doc@.subrange(pos as int, p as int) == dec(acc),
            forall|j: int| pos <= j < p ==> is_digit(#[trigger] doc@[j]),
            acc == digits_val(doc@, pos as int, p as int),
            acc == 0 ==> p == pos + 1,
            doc@[pos as int] == 48 ==> p == pos + 1,
        decreases doc@.len() - p,
    {
        proof {
            assert(digits_val(doc@, pos as int, pos as int) == 0);
            assert(digits_val(doc@, pos as int, pos + 1 as int) == doc@[pos as int] - 48);
            lemma_digits_end_digits(doc@, pos as int);
            lemma_digits_end_lb(doc@, pos as int, p + 1 as int);
            lemma_digits_val_mono(doc@, pos as int, p + 1 as int, digits_end(doc@, pos as int));
        }
        if acc == 0 {
            proof {
                assert(doc@[pos as int] == 48);
                assert(digits_end(doc@, pos as int) >= p + 1);
                assert(spec_parse_dec(doc@, pos as int) is None);
            }
            return None;
        }
        let d = (doc[p] - 48) as u64;
        let acc0 = acc;
        proof {
            assert(digits_val(doc@, pos as int, p + 1 as int) == acc0 * 10 + d);
        }
        acc = match acc.checked_mul(10) {
            Some(x) => match x.checked_add(d) {
                Some(y) => y,
                None => {
                    proof {
                        assert(digits_val(doc@, pos as int, digits_end(doc@, pos as int))
                            > u64::MAX);
                        assert(spec_parse_dec(doc@, pos as int) is None);
                    }
                    return None;
                },
            },
            None => {
                proof {
                    assert(digits_val(doc@, pos as int, digits_end(doc@, pos as int)) >= acc0
                        * 10);
                    assert(acc0 * 10 > u64::MAX);
                    assert(spec_parse_dec(doc@, pos as int) is None);
                }
                return None;
            },
        };
        p = p + 1;
        proof {
            vstd::arithmetic::div_mod::lemma_fundamental_div_mod_converse(
                acc as int,
                10,
                acc0 as int,
                d as int,
            );
            assert(acc >= 10);
            assert(dec(acc) == dec(acc0) + seq![(48 + d) as u8]);
            assert(doc@.subrange(pos as int, p as int) =~= dec(acc0) + seq![(48 + d) as u8]);
        }
    }
    proof {
        lemma_digits_end_at(doc@, pos as int, p as int);
        assert(spec_parse_dec(doc@, pos as int) == Some((acc, p as int)));
    }
    Some((acc, p))
}

/// Reads a quoted frame name. Accepts exactly the spellings `quoted` writes:
/// a backslash may precede only `"` or `\`.
fn parse_quoted(doc: &[u8], pos: usize) -> (r: Option<(Vec<u8>, usize)>)
    requires
        pos <= doc@.len(),
    ensures
        r matches Some((name, end)) ==> pos < end <= doc@.len() && doc@.subrange(
            pos as int,
            end as int,
        ) == quoted(name@),
        (r is Some) == (spec_parse_quoted(doc@, pos as int) is Some),
        r matches Some((name, end)) ==> spec_parse_quoted(doc@, pos as int) == Some(
            (name@, end as int),
        ),
{
    if pos >= doc.len() || doc[pos] != 34 {
        return None;
    }
    let mut name: Vec<u8> = Vec::new();
    let mut p: usize = pos + 1;
    proof {
        match spec_quoted_tail(doc@, p as int) {
            Some((s2, e2)) => {
                assert(name@ + s2 =~= s2);
            },
            None => {},
        }
        assert(spec_parse_quoted(doc@, pos as int) == opt_prepend(
            name@,
            spec_quoted_tail(doc@, p as int),
        ));
    }
    while p < doc.len() && doc[p] != 34
        invariant
            pos < p <= doc@.len(),
            doc@.subrange(pos + 1 as int, p as int) == esc(name@),
            spec_parse_quoted(doc@, pos as int) == opt_prepend(
                name@,
                spec_quoted_tail(doc@, p as int),
            ),
        decreases doc@.len() - p,
    {
        let b = doc[p];
        let ghost name0 = name@;
        let ghost p0 = p as int;
        if b == 92 {
            if p >= doc.len() || p + 1 >= doc.len() {
                proof {
                    assert(spec_quoted_tail(doc@, p0) is None);
                }
                return None;
            }
            let c = doc[p + 1];
            if c != 34 && c != 92 {
                proof {
                    assert(spec_quoted_tail(doc@, p0) is None);
                }
                return None;
            }
            name.push(c);
            p = p + 2;
            proof {
                assert(name@.drop_last() =~= name0);
                assert(esc(name@) == esc(name0) + seq![92u8, c]);
                assert(doc@.subrange(pos + 1 as int, p as int) =~= esc(name0) + seq![92u8, c]);
                match spec_quoted_tail(doc@, p as int) {
                    Some((s2, e2)) => {
                        assert(name0 + (seq![c] + s2) =~= name@ + s2);
                    },
                    None => {},
                }
                assert(spec_parse_quoted(doc@, pos as int) == opt_prepend(
                    name@,
                    spec_quoted_tail(doc@, p as int),
                ));
            }
        } else {
            name.push(b);
            p = p + 1;
            proof {
                assert(name@.drop_last() =~= name0);
                assert(esc(name@) == esc(name0) + seq![b]);
                assert(doc@.subrange(pos + 1 as int, p as int) =~= esc(name0) + seq![b]);
                match spec_quoted_tail(doc@, p as int) {
                    Some((s2, e2)) => {
                        assert(name0 + (seq![b] + s2) =~= name@ + s2);
                    },
                    None => {},
                }
                assert(spec_parse_quoted(doc@, pos as int) == opt_prepend(
                    name@,
                    spec_quoted_tail(doc@, p as int),
                ));
            }
        }
    }
    if p >= doc.len() {
        proof {
            assert(spec_quoted_tail(doc@, p as int) is None);
        }
        return None;
    }
    let end = p + 1;
    proof {
        assert(doc@.subrange(pos as int, end as int) =~= quoted(name@));
        assert(spec_quoted_tail(doc@, p as int) == Some((Seq::<u8>::empty(), end as int)));
        assert(name@ + Seq::<u8>::empty() =~= name@);
        assert(spec_parse_quoted(doc@, pos as int) == Some((name@, end as int)));
    }
    Some((name, end))
}

/// Reads one edge. Accepts exactly the spellings `edge_doc` writes.
#[verifier::loop_isolation(false)]
fn parse_edge(doc: &[u8], pos: usize) -> (r: Option<(Edge, usize)>)
    requires
        pos <= doc@.len(),
    ensures
        r matches Some((e, end)) ==> pos < end <= doc@.len() && doc@.subrange(
            pos as int,
            end as int,
        ) == edge_doc(e),
        (r is Some) == (spec_parse_edge(doc@, pos as int) is Some),
        r matches Some((e, end)) ==> spec_parse_edge(doc@, pos as int) == Some((e, end as int)),
{
    if pos >= doc.len() || doc[pos] != 91 {
        return None;
    }
    let (a64, p1) = match parse_dec(doc, pos + 1) {
        Some(x) => x,
        None => {
            return None;
        },
    };
    if a64 > (usize::MAX as u64) {
        return None;
    }
    let a = a64 as usize;
    if p1 >= doc.len() || doc[p1] != 44 {
        return None;
    }
    let (b64, p2) = match parse_dec(doc, p1 + 1) {
        Some(x) => x,
        None => {
            return None;
        },
    };
    if b64 > (usize::MAX as u64) {
        return None;
    }
    let b = b64 as usize;
    if p2 >= doc.len() || p2 + 1 >= doc.len() || doc[p2] != 44 || doc[p2 + 1] != 91 {
        return None;
    }
    let mut nums: Vec<u64> = Vec::new();
    let mut p: usize = p2 + 2;
    let ghost tstart = p as int;
    proof {
        assert(spec_parse_edge(doc@, pos as int) == (match spec_parse_nums(doc@, tstart, 7, true) {
            Some((t, p3)) => if p3 + 1 < doc@.len() && doc@[p3] == 93 && doc@[p3 + 1] == 93 {
                Some((Edge { a, b, tf: se3_of(t) }, p3 + 2))
            } else {
                None::<(Edge, int)>
            },
            None => None::<(Edge, int)>,
        }));
        match spec_parse_nums(doc@, p as int, 7, true) {
            Some((t2, e2)) => {
                assert(nums@ + t2 =~= t2);
            },
            None => {},
        }
    }
    let mut j: usize = 0;
    while j < 7
        invariant
            0 <= tstart <= p <= doc@.len(),
            nums@.len() == j,
            j <= 7,
            doc@.subrange(tstart, p as int) == nums_doc(nums@),
            spec_parse_nums(doc@, tstart, 7, true) == opt_prepend(
                nums@,
                spec_parse_nums(doc@, p as int, (7 - j) as nat, j == 0),
            ),
        decreases 7 - j,
    {
        let ghost pin = p as int;
        if j > 0 {
            if p >= doc.len() || doc[p] != 44 {
                proof {
                    assert(spec_parse_nums(doc@, pin, (7 - j) as nat, false) is None);
                }
                return None;
            }
            p = p + 1;
        }
        let ghost nums0 = nums@;
        let (v, pn) = match parse_dec(doc, p) {
            Some(x) => x,
            None => {
                proof {
                    assert(spec_parse_nums(doc@, pin, (7 - j) as nat, j == 0) is None);
                }
                return None;
            },
        };
        proof {
            assert(spec_parse_nums(doc@, pin, (7 - j) as nat, j == 0) == opt_prepend(
                seq![v],
                spec_parse_nums(doc@, pn as int, (7 - j - 1) as nat, false),
            ));
            match spec_parse_nums(doc@, pn as int, (7 - j - 1) as nat, false) {
                Some((t2, e2)) => {
                    assert(nums0 + (seq![v] + t2) =~= (nums0 + seq![v]) + t2);
                },
                None => {},
            }
        }
        nums.push(v);
        proof {
            assert(nums@.drop_last() =~= nums0);
            assert(nums@.last() == v);
            if nums0.len() == 0 {
                assert(doc@.subrange(tstart, p as int) == nums_doc(nums0));
                assert(nums_doc(nums0) =~= Seq::<u8>::empty());
                assert(doc@.subrange(tstart, p as int).len() == 0);
                assert(p == tstart);
                assert(nums_doc(nums@) == dec(v));
                assert(doc@.subrange(tstart, pn as int) == doc@.subrange(p as int, pn as int));
            } else {
                assert(nums_doc(nums@) == nums_doc(nums0) + seq![44u8] + dec(v));
                assert(doc@[p - 1] == 44);
                assert(doc@.subrange(tstart, pn as int) =~= doc@.subrange(tstart, p - 1) + seq![
                    44u8,
                ] + doc@.subrange(p as int, pn as int));
            }
        }
        proof {
            assert(nums@ =~= nums0 + seq![v]);
        }
        p = pn;
        j = j + 1;
    }
    proof {
        assert(spec_parse_nums(doc@, p as int, 0, false) == Some((Seq::<u64>::empty(), p as int)));
        assert(nums@ + Seq::<u64>::empty() =~= nums@);
        assert(spec_parse_nums(doc@, tstart, 7, true) == Some((nums@, p as int)));
    }
    if p >= doc.len() || p + 1 >= doc.len() || doc[p] != 93 || doc[p + 1] != 93 {
        return None;
    }
    let e = Edge { a, b, tf: Se3 { v: [nums[0], nums[1], nums[2], nums[3], nums[4], nums[5], nums[6]] } };
    let end = p + 2;
    proof {
        assert(e.tf@ =~= nums@);
        assert(exists|s: Se3| s@ == nums@) by {
            assert(e.tf@ == nums@);
        }
        assert(se3_of(nums@)@ == nums@);
        assert(se3_of(nums@).v =~= e.tf.v);
        assert(se3_of(nums@) == e.tf);
        assert(doc@.subrange(pos as int, end as int) =~= edge_doc(e));
        assert(spec_parse_edge(doc@, pos as int) == Some((e, end as int)));
    }
    Some((e, end))
}

/// Parses a whole document. Accepts exactly the documents of the grammar
/// `spec_parse_doc` — which `dump_doc`'s output always is, by
/// `lemma_parse_of_doc` — and returns what that one reading yields; on
/// success the document is also, byte for byte, the serialization of the
/// returned frame list and edge list.
/// Reads the whole name list, one quoted name per entry, continued as long
/// as a comma follows an entry.
#[verifier::loop_isolation(false)]
fn parse_names_list(doc: &[u8], pos: usize) -> (r: Option<(Vec<Vec<u8>>, usize)>)
    requires
        pos < doc@.len(),
        doc@[pos as int] == 34,
    ensures
        (r is Some) == (spec_parse_names(doc@, pos as int, true) is Some),
        r matches Some((ns, end)) ==> pos < end <= doc@.len() && spec_parse_names(
            doc@,
            pos as int,
            true,
        ) == Some((ns.deep_view(), end as int)) && doc@.subrange(pos as int, end as int)
            == names_doc(ns.deep_view()),
{
    let n = doc.len();
    proof {
        assert(doc@.len() == n);
    }
    let mut names: Vec<Vec<u8>> = Vec::new();
    let mut p: usize = pos;
    let mut go = true;
    proof {
        assert(doc@.subrange(pos as int, p as int) =~= names_doc(names.deep_view()));
        match spec_parse_names(doc@, pos as int, true) {
            Some((s2, e2)) => {
                assert(names.deep_view() + s2 =~~= s2);
            },
            None => {},
        }
        assert(spec_parse_names(doc@, pos as int, true) == opt_prepend(
            names.deep_view(),
            spec_parse_names(doc@, p as int, names@.len() == 0),
        ));
    }
    while go
        invariant
            pos <= p <= doc@.len(),
            go ==> p < doc@.len() && (doc@[p as int] == 34 || doc@[p as int] == 44),
            go && names@.len() == 0 ==> p == pos,
            go && names@.len() > 0 ==> doc@[p as int] == 44,
            names@.len() > 0 || go,
            doc@.subrange(pos as int, p as int) == names_doc(names.deep_view()),
            go ==> spec_parse_names(doc@, pos as int, true) == opt_prepend(
                names.deep_view(),
                spec_parse_names(doc@, p as int, names@.len() == 0),
            ),
            !go ==> spec_parse_names(doc@, pos as int, true) == Some(
                (names.deep_view(), p as int),
            ),
        decreases doc@.len() - p,
    {
        let start = if names.len() > 0 {
            p + 1
        } else {
            p
        };
        let ghost pin = p as int;
        let ghost first = names@.len() == 0;
        let ghost ns0 = names.deep_view();
        let (name, pn) = match parse_quoted(doc, start) {
            Some(x) => x,
            None => {
                proof {
                    assert(spec_parse_names(doc@, pin, first) is None);
                    assert(spec_parse_names(doc@, pos as int, true) is None);
                }
                return None;
            },
        };
        names.push(name);
        proof {
            assert(names.deep_view() =~~= ns0.push(name@));
            assert(names.deep_view().drop_last() =~= ns0);
            if ns0.len() == 0 {
                assert(doc@.subrange(pos as int, pn as int) =~= names_doc(names.deep_view()));
            } else {
                assert(names_doc(names.deep_view()) == names_doc(ns0) + seq![44u8] + quoted(
                    name@,
                ));
                assert(doc@.subrange(pos as int, pn as int) =~= names_doc(ns0) + seq![44u8]
                    + quoted(name@));
            }
        }
        p = pn;
        if p < doc.len() && doc[p] == 44 {
            go = true;
            proof {
                assert(spec_parse_names(doc@, pin, first) == opt_prepend(
                    seq![name@],
                    spec_parse_names(doc@, p as int, false),
                ));
                match spec_parse_names(doc@, p as int, false) {
                    Some((s2, e2)) => {
                        assert(ns0 + (seq![name@] + s2) =~~= names.deep_view() + s2);
                    },
                    None => {},
                }
                assert(spec_parse_names(doc@, pos as int, true) == opt_prepend(
                    names.deep_view(),
                    spec_parse_names(doc@, p as int, names@.len() == 0),
                ));
            }
        } else {
            go = false;
            proof {
                assert(spec_parse_names(doc@, pin, first) == Some((seq![name@], p as int)));
                assert(ns0 + seq![name@] =~~= names.deep_view());
                assert(spec_parse_names(doc@, pos as int, true) == Some(
                    (names.deep_view(), p as int),
                ));
            }
        }
    }
    Some((names, p))
}

/// Reads the whole edge list, continued as long as a comma follows an
/// entry.
#[verifier::loop_isolation(false)]
fn parse_edges_list(doc: &[u8], pos: usize) -> (r: Option<(Vec<Edge>, usize)>)
    requires
        pos < doc@.len(),
        doc@[pos as int] == 91,
    ensures
        (r is Some) == (spec_parse_edges(doc@, pos as int, true) is Some),
        r matches Some((es, end)) ==> pos < end <= doc@.len() && spec_parse_edges(
            doc@,
            pos as int,
            true,
        ) == Some((es@, end as int)) && doc@.subrange(pos as int, end as int) == edges_doc(es@),
{
    let n = doc.len();
    proof {
        assert(doc@.len() == n);
    }
    let mut edges: Vec<Edge> = Vec::new();
    let mut p2: usize = pos;
    let mut go = true;
    proof {
        assert(doc@.subrange(pos as int, p2 as int) =~= edges_doc(edges@));
        match spec_parse_edges(doc@, p2 as int, true) {
            Some((s2, e2)) => {
                assert(edges@ + s2 =~= s2);
            },
            None => {},
        }
        assert(spec_parse_edges(doc@, pos as int, true) == opt_prepend(
            edges@,
            spec_parse_edges(doc@, p2 as int, edges@.len() == 0),
        ));
    }
    while go
        invariant
            pos <= p2 <= doc@.len(),
            go ==> p2 < doc@.len() && (doc@[p2 as int] == 91 || doc@[p2 as int] == 44),
            go && edges@.len() == 0 ==> p2 == pos,
            go && edges@.len() > 0 ==> doc@[p2 as int] == 44,
            edges@.len() > 0 || go,
            doc@.subrange(pos as int, p2 as int) == edges_doc(edges@),
            go ==> spec_parse_edges(doc@, pos as int, true) == opt_prepend(
                edges@,
                spec_parse_edges(doc@, p2 as int, edges@.len() == 0),
            ),
            !go ==> spec_parse_edges(doc@, pos as int, true) == Some((edges@, p2 as int)),
        decreases doc@.len() - p2,
    {
        let start = if edges.len() > 0 {
            p2 + 1
        } else {
            p2
        };
        let ghost pin = p2 as int;
        let ghost first = edges@.len() == 0;
        let ghost es0 = edges@;
        let (e, pn) = match parse_edge(doc, start) {
            Some(x) => x,
            None => {
                proof {
                    assert(spec_parse_edges(doc@, pin, first) is None);
                    assert(spec_parse_edges(doc@, pos as int, true) is None);
                }
                return None;
            },
        };
        edges.push(e);
        proof {
            assert(edges@.drop_last() =~= es0);
            assert(edges@.last() == e);
            if es0.len() == 0 {
                assert(edges_doc(es0) =~= Seq::<u8>::empty());
                assert(p2 == pos);
                assert(edges_doc(edges@) == edge_doc(e));
                assert(doc@.subrange(pos as int, pn as int) == doc@.subrange(
                    start as int,
                    pn as int,
                ));
            } else {
                assert(edges_doc(edges@) == edges_doc(es0) + seq![44u8] + edge_doc(e));
                assert(doc@[p2 as int] == 44);
                assert(doc@.subrange(pos as int, pn as int) =~= doc@.subrange(
                    pos as int,
                    p2 as int,
                ) + seq![44u8] + doc@.subrange(start as int, pn as int));
            }
        }
        p2 = pn;
        if p2 < doc.len() && doc[p2] == 44 {
            go = true;
            proof {
                assert(spec_parse_edges(doc@, pin, first) == opt_prepend(
                    seq![e],
                    spec_parse_edges(doc@, p2 as int, false),
                ));
                match spec_parse_edges(doc@, p2 as int, false) {
                    Some((s2, e2)) => {
                        assert(es0 + (seq![e] + s2) =~= edges@ + s2);
                    },
                    None => {},
                }
                assert(spec_parse_edges(doc@, pos as int, true) == opt_prepend(
                    edges@,
                    spec_parse_edges(doc@, p2 as int, edges@.len() == 0),
                ));
            }
        } else {
            go = false;
            proof {
                assert(spec_parse_edges(doc@, pin, first) == Some((seq![e], p2 as int)));
                assert(es0 + seq![e] =~= edges@);
                assert(spec_parse_edges(doc@, pos as int, true) == Some((edges@, p2 as int)));
            }
        }
    }
    Some((edges, p2))
}

#[verifier::loop_isolation(false)]
#[verifier::rlimit(100)]
pub fn parse_doc(doc: &[u8]) -> (r: Option<(Vec<Vec<u8>>, Vec<Edge>)>)
    ensures
        r matches Some((ns, es)) ==> doc@ == doc_of(ns.deep_view(), es@),
        (r is Some) == (spec_parse_doc(doc@) is Some),
        r matches Some((ns, es)) ==> spec_parse_doc(doc@) == Some((ns.deep_view(), es@)),
{
    let head: [u8; 10] = [123, 34, 110, 111, 100, 101, 115, 34, 58, 91];
    proof {
        assert(head@ =~= doc_head());
    }
    if doc.len() < 10 {
        return None;
    }
    if !bytes_eq(slice_subrange(doc, 0, 10), head.as_slice()) {
        proof {
            assert(doc@.subrange(0, 10) != doc_head());
        }
        return None;
    }
    let mut names: Vec<Vec<u8>> = Vec::new();
    let mut p: usize = 10;
    proof {
        assert(doc@.subrange(0, 10) =~= doc_head());
        assert(names.deep_view() =~= Seq::<Seq<u8>>::empty());
        assert(doc@.subrange(10, p as int) =~= names_doc(names.deep_view()));
    }
    if p < doc.len() && doc[p] == 34 {
        match parse_names_list(doc, p) {
            Some((ns, end)) => {
                names = ns;
                p = end;
            },
            None => {
                proof {
                    assert(spec_parse_doc(doc@) is None);
                }
                return None;
            },
        }
    }
    proof {
        assert((if 10 < doc@.len() && doc@[10] == 34 {
            spec_parse_names(doc@, 10, true)
        } else {
            Some((Seq::<Seq<u8>>::empty(), 10 as int))
        }) == Some((names.deep_view(), p as int))) by {
            if !(10 < doc@.len() && doc@[10] == 34) {
                assert(names.deep_view() =~~= Seq::<Seq<u8>>::empty());
            }
        }
    }
    let mid: [u8; 11] = [93, 44, 34, 101, 100, 103, 101, 115, 34, 58, 91];
    proof {
        assert(mid@ =~= doc_mid());
    }
    if doc.len() < 11 || p > doc.len() - 11 {
        proof {
            assert(spec_parse_doc(doc@) is None);
        }
        return None;
    }
    if !bytes_eq(slice_subrange(doc, p, p + 11), mid.as_slice()) {
        proof {
            assert(doc@.subrange(p as int, p + 11) != doc_mid());
            assert(spec_parse_doc(doc@) is None);
        }
        return None;
    }
    let ghost nstart = p as int;
    let mut p2: usize = p + 11;
    let mut edges: Vec<Edge> = Vec::new();
    proof {
        assert(doc@.subrange(nstart, p2 as int) =~= doc_mid());
        assert(doc@.subrange(p2 as int, p2 as int) =~= edges_doc(edges@));
    }
    if p2 < doc.len() && doc[p2] == 91 {
        match parse_edges_list(doc, p2) {
            Some((es, end)) => {
                edges = es;
                p2 = end;
            },
            None => {
                proof {
                    assert(spec_parse_doc(doc@) is None);
                }
                return None;
            },
        }
    }
    proof {
        assert((if nstart + 11 < doc@.len() && doc@[nstart + 11] == 91 {
            spec_parse_edges(doc@, nstart + 11, true)
        } else {
            Some((Seq::<Edge>::empty(), nstart + 11))
        }) == Some((edges@, p2 as int))) by {
            if !(nstart + 11 < doc@.len() && doc@[nstart + 11] == 91) {
                assert(edges@ =~= Seq::<Edge>::empty());
            }
        }
    }
    if doc.len() < 2 || p2 != doc.len() - 2 {
        proof {
            assert(spec_parse_doc(doc@) is None);
        }
        return None;
    }
    if doc[p2] != 93 || doc[p2 + 1] != 125 {
        proof {
            assert(spec_parse_doc(doc@) is None);
        }
        return None;
    }
    proof {
        assert(doc@ =~= doc_of(names.deep_view(), edges@));
        assert(spec_parse_doc(doc@) == Some((names.deep_view(), edges@)));
    }
    Some((names, edges))
}

/// Writes the document of a graph given as its frame list and edge list.
pub fn dump_doc(names: &Vec<Vec<u8>>, edges: &Vec<Edge>) -> (r: Vec<u8>)
    ensures
        r@ == doc_of(names.deep_view(), edges@),
{
    let mut out: Vec<u8> = Vec::new();
    let head: [u8; 10] = [123, 34, 110, 111, 100, 101, 115, 34, 58, 91];
    proof {
        assert(head@ =~= doc_head());
    }
    let mut i: usize = 0;
    while i < 10
        invariant
            head@ == doc_head(),
            i <= 10,
            out@ == doc_head().take(i as int),
        decreases 10 - i,
    {
        out.push(head[i]);
        proof {
            assert(out@ =~= doc_head().take(i + 1 as int));
        }
        i = i + 1;
    }
    proof {
        assert(out@ =~= doc_head());
    }
    let ghost ns = names.deep_view();
    let mut k: usize = 0;
    while k < names.len()
        invariant
            k <= names@.len(),
            ns == names.deep_view(),
            ns.len() == names@.len(),
            forall|j: int| 0 <= j < ns.len() ==> ns[j] == names@[j]@,
            out@ == doc_head() + names_doc(ns.take(k as int)),
        decreases names@.len() - k,
    {
        if k > 0 {
            out.push(44);
        }
        push_quoted(&mut out, &names[k]);
        proof {
            let t1 = ns.take(k + 1 as int);
            assert(t1.drop_last() =~= ns.take(k as int));
            assert(t1.last() == ns[k as int]);
            assert(out@ =~= doc_head() + names_doc(t1));
        }
        k = k + 1;
    }
    proof {
        assert(ns.take(k as int) =~= ns);
    }
    let mid: [u8; 11] = [93, 44, 34, 101, 100, 103, 101, 115, 34, 58, 91];
    proof {
        assert(mid@ =~= doc_mid());
    }
    let ghost mark = out@;
    let mut i2: usize = 0;
    while i2 < 11
        invariant
            mid@ == doc_mid(),
            i2 <= 11,
            out@ == mark + doc_mid().take(i2 as int),
        decreases 11 - i2,
    {
        out.push(mid[i2]);
        proof {
            assert(out@ =~= mark + doc_mid().take(i2 + 1 as int));
        }
        i2 = i2 + 1;
    }
    proof {
        assert(doc_mid().take(11) =~= doc_mid());
    }
    let ghost mark2 = out@;
    let mut k2: usize = 0;
    while k2 < edges.len()
        invariant
            k2 <= edges@.len(),
            out@ == mark2 + edges_doc(edges@.take(k2 as int)),
        decreases edges@.len() - k2,
    {
        if k2 > 0 {
            out.push(44);
        }
        push_edge(&mut out, &edges[k2]);
        proof {
            let t1 = edges@.take(k2 + 1 as int);
            assert(t1.drop_last() =~= edges@.take(k2 as int));
            assert(t1.last() == edges@[k2 as int]);
            assert(out@ =~= mark2 + edges_doc(t1));
        }
        k2 = k2 + 1;
    }
    out.push(93);
    out.push(125);
    proof {
        assert(edges@.take(k2 as int) =~= edges@);
        assert(out@ =~= doc_of(ns, edges@));
    }
    out
}

proof fn lemma_dec_digits(n: u64)
    ensures
        dec(n).len() >= 1,
        forall|i: int| 0 <= i < dec(n).len() ==> is_digit(#[trigger] dec(n)[i]),
        dec(n)[0] == 48 ==> n == 0,
    decreases n,
{
    if n >= 10 {
        lemma_dec_digits(n / 10);
        assert(forall|i: int| 0 <= i < dec(n).len() - 1 ==> dec(n)[i] == dec(n / 10)[i]);
        assert(dec(n)[dec(n).len() - 1] == (48 + n % 10) as u8);
    }
}

proof fn lemma_digits_val_of_dec(d: Seq<u8>, pos: int, n: u64)
    requires
        0 <= pos,
        pos + dec(n).len() <= d.len(),
        d.subrange(pos, pos + dec(n).len()) == dec(n),
    ensures
        digits_val(d, pos, pos + dec(n).len()) == n,
    decreases n,
{
    let l = dec(n).len();
    if n < 10 {
        assert(d[pos] == dec(n)[0]);
        assert(digits_val(d, pos, pos) == 0);
        assert(digits_val(d, pos, pos + 1) == d[pos] - 48);
    } else {
        assert(dec(n) == dec(n / 10) + seq![(48 + n % 10) as u8]);
        assert(d.subrange(pos, pos + dec(n / 10).len()) =~= dec(n / 10)) by {
            assert(forall|i: int| 0 <= i < dec(n / 10).len() ==> d.subrange(
                pos,
                pos + dec(n).len(),
            )[i] == dec(n)[i]);
        }
        lemma_digits_val_of_dec(d, pos, n / 10);
        assert(d[pos + l - 1] == dec(n)[l - 1]);
        assert(digits_val(d, pos, pos + l) == digits_val(d, pos, pos + l - 1) * 10 + (d[pos + l
            - 1] - 48));
    }
}

proof fn lemma_parse_dec_of_dec(d: Seq<u8>, pos: int, n: u64)
    requires
        0 <= pos,
        pos + dec(n).len() <= d.len(),
        d.subrange(pos, pos + dec(n).len()) == dec(n),
        pos + dec(n).len() == d.len() || !is_digit(d[pos + dec(n).len()]),
    ensures
        spec_parse_dec(d, pos) == Some((n, pos + dec(n).len())),
{
    let l = dec(n).len();
    lemma_dec_digits(n);
    assert(forall|i: int| 0 <= i < l ==> d[pos + i] == dec(n)[i]) by {
        assert(forall|i: int| 0 <= i < l ==> d.subrange(pos, pos + l)[i] == dec(n)[i]);
    }
    assert(forall|j: int| pos <= j < pos + l ==> is_digit(#[trigger] d[j])) by {
        assert(forall|j: int| pos <= j < pos + l ==> d[j] == dec(n)[j - pos]);
    }
    lemma_digits_end_at(d, pos, pos + l);
    lemma_digits_val_of_dec(d, pos, n);
    assert(d[pos] == dec(n)[0]);
    if d[pos] == 48 {
        assert(n == 0);
        assert(l == 1);
    }
}

proof fn lemma_esc_cat(a: Seq<u8>, b: Seq<u8>)
    ensures
        esc(a + b) == esc(a) + esc(b),
    decreases b.len(),
{
    if b.len() == 0 {
        assert(a + b =~= a);
        assert(esc(a) + esc(b) =~= esc(a));
    } else {
        assert((a + b).drop_last() =~= a + b.drop_last());
        lemma_esc_cat(a, b.drop_last());
        assert((a + b).last() == b.last());
        assert(esc(a + b) == esc(a) + esc(b.drop_last()) + esc_byte(b.last()));
        assert(esc(b) == esc(b.drop_last()) + esc_byte(b.last()));
        assert(esc(a) + esc(b.drop_last()) + esc_byte(b.last()) =~= esc(a) + esc(b));
    }
}

proof fn lemma_esc_first(c: u8, rest: Seq<u8>)
    ensures
        esc(seq![c] + rest) == esc_byte(c) + esc(rest),
{
    lemma_esc_cat(seq![c], rest);
    assert(seq![c].drop_last() =~= Seq::<u8>::empty());
    assert(esc(Seq::<u8>::empty()) =~= Seq::<u8>::empty());
    assert(esc(seq![c]) =~= esc_byte(c));
}

proof fn lemma_quoted_tail_of_esc(d: Seq<u8>, pos: int, nm: Seq<u8>)
    requires
        0 <= pos,
        pos + esc(nm).len() + 1 <= d.len(),
        d.subrange(pos, pos + esc(nm).len()) == esc(nm),
        d[pos + esc(nm).len()] == 34,
    ensures
        spec_quoted_tail(d, pos) == Some((nm, pos + esc(nm).len() + 1)),
    decreases nm.len(),
{
    let l = esc(nm).len();
    assert(forall|i: int| 0 <= i < l ==> d[pos + i] == esc(nm)[i]) by {
        assert(forall|i: int| 0 <= i < l ==> d.subrange(pos, pos + l)[i] == esc(nm)[i]);
    }
    if nm.len() == 0 {
        assert(esc(nm) =~= Seq::<u8>::empty());
        assert(d[pos] == 34);
    } else {
        let c = nm[0];
        let rest = nm.drop_first();
        assert(seq![c] + rest =~= nm);
        lemma_esc_first(c, rest);
        assert(esc(nm) == esc_byte(c) + esc(rest));
        if c == 34 || c == 92 {
            assert(esc(nm)[0] == 92 && esc(nm)[1] == c);
            assert(d[pos] == 92 && d[pos + 1] == c);
            assert(d.subrange(pos + 2, pos + 2 + esc(rest).len()) =~= esc(rest)) by {
                assert(forall|i: int| 0 <= i < esc(rest).len() ==> esc(nm)[2 + i] == esc(
                    rest,
                )[i]);
            }
            lemma_quoted_tail_of_esc(d, pos + 2, rest);
            assert(seq![c] + rest =~= nm);
        } else {
            assert(esc(nm)[0] == c);
            assert(d[pos] == c);
            assert(d.subrange(pos + 1, pos + 1 + esc(rest).len()) =~= esc(rest)) by {
                assert(forall|i: int| 0 <= i < esc(rest).len() ==> esc(nm)[1 + i] == esc(
                    rest,
                )[i]);
            }
            lemma_quoted_tail_of_esc(d, pos + 1, rest);
            assert(seq![c] + rest =~= nm);
        }
    }
}

proof fn lemma_parse_quoted_of(d: Seq<u8>, pos: int, nm: Seq<u8>)
    requires
        0 <= pos,
        pos + quoted(nm).len() <= d.len(),
        d.subrange(pos, pos + quoted(nm).len()) == quoted(nm),
    ensures
        spec_parse_quoted(d, pos) == Some((nm, pos + quoted(nm).len())),
{
    let l = quoted(nm).len();
    assert(forall|i: int| 0 <= i < l ==> d[pos + i] == quoted(nm)[i]) by {
        assert(forall|i: int| 0 <= i < l ==> d.subrange(pos, pos + l)[i] == quoted(nm)[i]);
    }
    assert(quoted(nm)[0] == 34) by {
        assert(quoted(nm)[0] == (seq![34u8] + esc(nm))[0]);
        assert((seq![34u8] + esc(nm))[0] == seq![34u8][0]);
    }
    assert(quoted(nm)[l - 1] == 34) by {
        assert(quoted(nm)[l - 1] == seq![34u8][0]);
    }
    assert(d[pos] == 34);
    assert(d.subrange(pos + 1, pos + 1 + esc(nm).len()) =~= esc(nm)) by {
        assert forall|i: int| 0 <= i < esc(nm).len() implies quoted(nm)[1 + i] == esc(nm)[i] by {
            assert(quoted(nm)[1 + i] == (seq![34u8] + esc(nm))[1 + i]);
            assert((seq![34u8] + esc(nm))[1 + i] == esc(nm)[i]);
        }
    }
    assert(d[pos + 1 + esc(nm).len()] == quoted(nm)[l - 1]);
    lemma_quoted_tail_of_esc(d, pos + 1, nm);
}

proof fn lemma_nums_doc_first(t: Seq<u64>)
    requires
        t.len() >= 2,
    ensures
        nums_doc(t) == dec(t[0]) + seq![44u8] + nums_doc(t.drop_first()),
    decreases t.len(),
{
    if t.len() == 2 {
        assert(t.drop_last() =~= seq![t[0]]);
        assert(t.drop_first() =~= seq![t[1]]);
        assert(nums_doc(seq![t[0]]) == dec(t[0]));
        assert(nums_doc(seq![t[1]]) == dec(t[1]));
    } else {
        lemma_nums_doc_first(t.drop_last());
        assert(t.drop_last()[0] == t[0]);
        assert(t.drop_last().drop_first() =~= t.drop_first().drop_last());
        assert(t.drop_first().last() == t.last());
        assert(nums_doc(t.drop_first()) == nums_doc(t.drop_first().drop_last()) + seq![44u8]
            + dec(t.drop_first().last()));
        assert(nums_doc(t) =~= dec(t[0]) + seq![44u8] + nums_doc(t.drop_first()));
    }
}

proof fn lemma_parse_nums_of(d: Seq<u8>, pos: int, t: Seq<u64>, first: bool)
    requires
        0 <= pos,
        t.len() >= 1,
        !first ==> pos < d.len() && d[pos] == 44,
        ({
            let start = if first {
                pos
            } else {
                pos + 1
            };
            &&& start + nums_doc(t).len() <= d.len()
            &&& d.subrange(start, start + nums_doc(t).len()) == nums_doc(t)
            &&& (start + nums_doc(t).len() == d.len() || !is_digit(
                d[start + nums_doc(t).len()],
            ))
        }),
    ensures
        spec_parse_nums(d, pos, t.len() as nat, first) == Some(
            (
                t,
                (if first {
                    pos
                } else {
                    pos + 1
                }) + nums_doc(t).len(),
            ),
        ),
    decreases t.len(),
{
    let start = if first {
        pos
    } else {
        pos + 1
    };
    let l = nums_doc(t).len();
    assert(forall|i: int| 0 <= i < l ==> d[start + i] == nums_doc(t)[i]) by {
        assert(forall|i: int| 0 <= i < l ==> d.subrange(start, start + l)[i] == nums_doc(t)[i]);
    }
    if t.len() == 1 {
        assert(nums_doc(t) == dec(t[0]));
        assert(d.subrange(start, start + dec(t[0]).len()) == dec(t[0]));
        lemma_parse_dec_of_dec(d, start, t[0]);
        assert(spec_parse_nums(d, start + l, 0, false) == Some(
            (Seq::<u64>::empty(), start + l),
        ));
        assert(seq![t[0]] + Seq::<u64>::empty() =~= t);
    } else {
        lemma_nums_doc_first(t);
        let l0 = dec(t[0]).len() as int;
        let rest = t.drop_first();
        let lr = nums_doc(rest).len() as int;
        assert(l == l0 + 1 + lr);
        assert forall|i: int| 0 <= i < l0 implies nums_doc(t)[i] == dec(t[0])[i] by {
            assert(nums_doc(t)[i] == (dec(t[0]) + seq![44u8])[i]);
        }
        assert(d.subrange(start, start + l0) =~= dec(t[0]));
        assert(nums_doc(t)[l0] == (dec(t[0]) + seq![44u8])[l0]);
        assert(d[start + l0] == 44);
        assert(!is_digit(44));
        lemma_parse_dec_of_dec(d, start, t[0]);
        assert forall|i: int| 0 <= i < lr implies nums_doc(t)[l0 + 1 + i] == #[trigger] nums_doc(rest)[i] by {
            assert(nums_doc(t)[l0 + 1 + i] == nums_doc(rest)[l0 + 1 + i - (l0 + 1)]);
        }
        assert(d.subrange(start + l0 + 1, start + l) =~= nums_doc(rest));
        lemma_parse_nums_of(d, start + l0, rest, false);
        assert(seq![t[0]] + rest =~= t);
    }
}

proof fn lemma_parse_edge_of(d: Seq<u8>, pos: int, e: Edge)
    requires
        0 <= pos,
        pos + edge_doc(e).len() <= d.len(),
        d.subrange(pos, pos + edge_doc(e).len()) == edge_doc(e),
    ensures
        spec_parse_edge(d, pos) == Some((e, pos + edge_doc(e).len())),
{
    let l = edge_doc(e).len() as int;
    let la = dec(e.a as u64).len() as int;
    let lb = dec(e.b as u64).len() as int;
    let ln = nums_doc(e.tf@).len() as int;
    let pa = seq![91u8] + dec(e.a as u64);
    let pb = pa + seq![44u8] + dec(e.b as u64);
    let pn = pb + seq![44u8, 91u8] + nums_doc(e.tf@);
    assert(edge_doc(e) =~= pn + seq![93u8, 93u8]);
    assert(l == 6 + la + lb + ln);
    assert(forall|i: int| 0 <= i < l ==> d[pos + i] == edge_doc(e)[i]) by {
        assert(forall|i: int| 0 <= i < l ==> d.subrange(pos, pos + l)[i] == edge_doc(e)[i]);
    }
    assert(edge_doc(e)[0] == 91) by {
        assert(edge_doc(e)[0] == pa[0]);
    }
    assert forall|i: int| 0 <= i < la implies edge_doc(e)[1 + i] == #[trigger] dec(e.a as u64)[i] by {
        assert(edge_doc(e)[1 + i] == pa[1 + i]);
    }
    assert(d.subrange(pos + 1, pos + 1 + la) =~= dec(e.a as u64));
    assert(edge_doc(e)[1 + la] == 44) by {
        assert(edge_doc(e)[1 + la] == pb[1 + la]);
        assert(pb[1 + la] == (pa + seq![44u8])[1 + la]);
    }
    assert(!is_digit(44));
    lemma_parse_dec_of_dec(d, pos + 1, e.a as u64);
    let p1 = pos + 1 + la;
    assert forall|i: int| 0 <= i < lb implies edge_doc(e)[2 + la + i] == #[trigger] dec(e.b as u64)[i] by {
        assert(edge_doc(e)[2 + la + i] == pb[2 + la + i]);
        assert(pb[2 + la + i] == dec(e.b as u64)[i]);
    }
    assert(d.subrange(p1 + 1, p1 + 1 + lb) =~= dec(e.b as u64));
    assert(edge_doc(e)[2 + la + lb] == 44 && edge_doc(e)[3 + la + lb] == 91) by {
        assert(edge_doc(e)[2 + la + lb] == pn[2 + la + lb]);
        assert(pn[2 + la + lb] == (pb + seq![44u8, 91u8])[2 + la + lb]);
        assert(edge_doc(e)[3 + la + lb] == pn[3 + la + lb]);
        assert(pn[3 + la + lb] == (pb + seq![44u8, 91u8])[3 + la + lb]);
    }
    lemma_parse_dec_of_dec(d, p1 + 1, e.b as u64);
    let p2 = p1 + 1 + lb;
    assert forall|i: int| 0 <= i < ln implies edge_doc(e)[4 + la + lb + i] == #[trigger] nums_doc(e.tf@)[i] by {
        assert(edge_doc(e)[4 + la + lb + i] == pn[4 + la + lb + i]);
    }
    assert(d.subrange(p2 + 2, p2 + 2 + ln) =~= nums_doc(e.tf@));
    assert(edge_doc(e)[4 + la + lb + ln] == 93 && edge_doc(e)[5 + la + lb + ln] == 93) by {
        assert(edge_doc(e)[4 + la + lb + ln] == seq![93u8, 93u8][0]);
        assert(edge_doc(e)[5 + la + lb + ln] == seq![93u8, 93u8][1]);
    }
    assert(!is_digit(93));
    assert(e.tf@.len() == 7);
    lemma_parse_nums_of(d, p2 + 2, e.tf@, true);
    let p3 = p2 + 2 + ln;
    assert(exists|s2: Se3| (#[trigger] s2@) == e.tf@) by {
        assert(e.tf@ == e.tf@);
    }
    assert(se3_of(e.tf@)@ == e.tf@);
    assert(se3_of(e.tf@).v =~= e.tf.v);
    assert(se3_of(e.tf@) == e.tf);
    assert((e.a as u64) as usize == e.a && (e.b as u64) as usize == e.b);
    assert(spec_parse_edge(d, pos) == Some((e, p3 + 2)));
}

proof fn lemma_names_doc_first(ns: Seq<Seq<u8>>)
    requires
        ns.len() >= 2,
    ensures
        names_doc(ns) == quoted(ns[0]) + seq![44u8] + names_doc(ns.drop_first()),
    decreases ns.len(),
{
    if ns.len() == 2 {
        assert(ns.drop_last() =~= seq![ns[0]]);
        assert(ns.drop_first() =~= seq![ns[1]]);
        assert(names_doc(seq![ns[0]]) == quoted(ns[0]));
        assert(names_doc(seq![ns[1]]) == quoted(ns[1]));
    } else {
        lemma_names_doc_first(ns.drop_last());
        assert(ns.drop_last()[0] == ns[0]);
        assert(ns.drop_last().drop_first() =~= ns.drop_first().drop_last());
        assert(ns.drop_first().last() == ns.last());
        assert(names_doc(ns.drop_first()) == names_doc(ns.drop_first().drop_last()) + seq![44u8]
            + quoted(ns.drop_first().last()));
        assert(names_doc(ns) =~= quoted(ns[0]) + seq![44u8] + names_doc(ns.drop_first()));
    }
}

proof fn lemma_edges_doc_first(es: Seq<Edge>)
    requires
        es.len() >= 2,
    ensures
        edges_doc(es) == edge_doc(es[0]) + seq![44u8] + edges_doc(es.drop_first()),
    decreases es.len(),
{
    if es.len() == 2 {
        assert(es.drop_last() =~= seq![es[0]]);
        assert(es.drop_first() =~= seq![es[1]]);
        assert(edges_doc(seq![es[0]]) == edge_doc(es[0]));
        assert(edges_doc(seq![es[1]]) == edge_doc(es[1]));
    } else {
        lemma_edges_doc_first(es.drop_last());
        assert(es.drop_last()[0] == es[0]);
        assert(es.drop_last().drop_first() =~= es.drop_first().drop_last());
        assert(es.drop_first().last() == es.last());
        assert(edges_doc(es.drop_first()) == edges_doc(es.drop_first().drop_last()) + seq![44u8]
            + edge_doc(es.drop_first().last()));
        assert(edges_doc(es) =~= edge_doc(es[0]) + seq![44u8] + edges_doc(es.drop_first()));
    }
}

proof fn lemma_parse_names_of(d: Seq<u8>, pos: int, ns: Seq<Seq<u8>>, first: bool)
    requires
        0 <= pos,
        ns.len() >= 1,
        !first ==> pos < d.len() && d[pos] == 44,
        ({
            let start = if first {
                pos
            } else {
                pos + 1
            };
            &&& start + names_doc(ns).len() <= d.len()
            &&& d.subrange(start, start + names_doc(ns).len()) == names_doc(ns)
            &&& (start + names_doc(ns).len() == d.len() || d[start + names_doc(ns).len()] != 44)
        }),
    ensures
        spec_parse_names(d, pos, first) == Some(
            (
                ns,
                (if first {
                    pos
                } else {
                    pos + 1
                }) + names_doc(ns).len(),
            ),
        ),
    decreases ns.len(),
{
    let start = if first {
        pos
    } else {
        pos + 1
    };
    let l = names_doc(ns).len() as int;
    assert(forall|i: int| 0 <= i < l ==> d[start + i] == names_doc(ns)[i]) by {
        assert(forall|i: int| 0 <= i < l ==> d.subrange(start, start + l)[i] == names_doc(
            ns,
        )[i]);
    }
    if ns.len() == 1 {
        assert(names_doc(ns) == quoted(ns[0]));
        lemma_parse_quoted_of(d, start, ns[0]);
        assert(seq![ns[0]] =~= ns);
    } else {
        lemma_names_doc_first(ns);
        let l0 = quoted(ns[0]).len() as int;
        let rest = ns.drop_first();
        let lr = names_doc(rest).len() as int;
        assert(l == l0 + 1 + lr);
        assert forall|i: int| 0 <= i < l0 implies names_doc(ns)[i] == #[trigger] quoted(
            ns[0],
        )[i] by {
            assert(names_doc(ns)[i] == (quoted(ns[0]) + seq![44u8])[i]);
        }
        assert(d.subrange(start, start + l0) =~= quoted(ns[0]));
        lemma_parse_quoted_of(d, start, ns[0]);
        assert(names_doc(ns)[l0] == (quoted(ns[0]) + seq![44u8])[l0]);
        assert(d[start + l0] == 44);
        assert forall|i: int| 0 <= i < lr implies names_doc(ns)[l0 + 1 + i] == #[trigger] names_doc(
            rest,
        )[i] by {
            assert(names_doc(ns)[l0 + 1 + i] == names_doc(rest)[l0 + 1 + i - (l0 + 1)]);
        }
        assert(d.subrange(start + l0 + 1, start + l) =~= names_doc(rest));
        lemma_parse_names_of(d, start + l0, rest, false);
        assert(seq![ns[0]] + rest =~= ns);
    }
}

proof fn lemma_parse_edges_of(d: Seq<u8>, pos: int, es: Seq<Edge>, first: bool)
    requires
        0 <= pos,
        es.len() >= 1,
        !first ==> pos < d.len() && d[pos] == 44,
        ({
            let start = if first {
                pos
            } else {
                pos + 1
            };
            &&& start + edges_doc(es).len() <= d.len()
            &&& d.subrange(start, start + edges_doc(es).len()) == edges_doc(es)
            &&& (start + edges_doc(es).len() == d.len() || d[start + edges_doc(es).len()] != 44)
        }),
    ensures
        spec_parse_edges(d, pos, first) == Some(
            (
                es,
                (if first {
                    pos
                } else {
                    pos + 1
                }) + edges_doc(es).len(),
            ),
        ),
    decreases es.len(),
{
    let start = if first {
        pos
    } else {
        pos + 1
    };
    let l = edges_doc(es).len() as int;
    assert(forall|i: int| 0 <= i < l ==> d[start + i] == edges_doc(es)[i]) by {
        assert(forall|i: int| 0 <= i < l ==> d.subrange(start, start + l)[i] == edges_doc(
            es,
        )[i]);
    }
    if es.len() == 1 {
        assert(edges_doc(es) == edge_doc(es[0]));
        lemma_parse_edge_of(d, start, es[0]);
        assert(seq![es[0]] =~= es);
    } else {
        lemma_edges_doc_first(es);
        let l0 = edge_doc(es[0]).len() as int;
        let rest = es.drop_first();
        let lr = edges_doc(rest).len() as int;
        assert(l == l0 + 1 + lr);
        assert forall|i: int| 0 <= i < l0 implies edges_doc(es)[i] == #[trigger] edge_doc(
            es[0],
        )[i] by {
            assert(edges_doc(es)[i] == (edge_doc(es[0]) + seq![44u8])[i]);
        }
        assert(d.subrange(start, start + l0) =~= edge_doc(es[0]));
        lemma_parse_edge_of(d, start, es[0]);
        assert(edges_doc(es)[l0] == (edge_doc(es[0]) + seq![44u8])[l0]);
        assert(d[start + l0] == 44);
        assert forall|i: int| 0 <= i < lr implies edges_doc(es)[l0 + 1 + i] == #[trigger] edges_doc(
            rest,
        )[i] by {
            assert(edges_doc(es)[l0 + 1 + i] == edges_doc(rest)[l0 + 1 + i - (l0 + 1)]);
        }
        assert(d.subrange(start + l0 + 1, start + l) =~= edges_doc(rest));
        lemma_parse_edges_of(d, start + l0, rest, false);
        assert(seq![es[0]] + rest =~= es);
    }
}

/// The round trip at document level: the one reading of a graph's document
/// is exactly the frame list and edge list it was written from.
pub proof fn lemma_parse_of_doc(ns: Seq<Seq<u8>>, es: Seq<Edge>)
    ensures
        spec_parse_doc(doc_of(ns, es)) == Some((ns, es)),
{
    let d = doc_of(ns, es);
    let nl = names_doc(ns).len() as int;
    let el = edges_doc(es).len() as int;
    let pa = doc_head() + names_doc(ns);
    let pb = pa + doc_mid();
    let pc = pb + edges_doc(es);
    assert(d =~= pc + doc_tail());
    assert(d.len() == 10 + nl + 11 + el + 2);
    assert forall|i: int| 0 <= i < 10 implies d[i] == #[trigger] doc_head()[i] by {
        assert(d[i] == pa[i]);
    }
    assert(d.subrange(0, 10) =~= doc_head());
    assert forall|i: int| 0 <= i < nl implies d[10 + i] == #[trigger] names_doc(ns)[i] by {
        assert(d[10 + i] == pa[10 + i]);
    }
    assert forall|i: int| 0 <= i < 11 implies d[10 + nl + i] == #[trigger] doc_mid()[i] by {
        assert(d[10 + nl + i] == pb[10 + nl + i]);
        assert(pb[10 + nl + i] == doc_mid()[i]);
    }
    assert(d.subrange(10 + nl, 10 + nl + 11) =~= doc_mid());
    assert forall|i: int| 0 <= i < el implies d[10 + nl + 11 + i] == #[trigger] edges_doc(
        es,
    )[i] by {
        assert(d[10 + nl + 11 + i] == pc[10 + nl + 11 + i]);
        assert(pc[10 + nl + 11 + i] == edges_doc(es)[i]);
    }
    assert(d[10 + nl + 11 + el] == 93 && d[10 + nl + 11 + el + 1] == 125) by {
        assert(d[10 + nl + 11 + el] == doc_tail()[0]);
        assert(d[10 + nl + 11 + el + 1] == doc_tail()[1]);
    }
    if ns.len() > 0 {
        assert(names_doc(ns)[0] == 34) by {
            if ns.len() == 1 {
                assert(names_doc(ns) == quoted(ns[0]));
            } else {
                lemma_names_doc_first(ns);
            }
            assert(quoted(ns[0])[0] == (seq![34u8] + esc(ns[0]))[0]);
            assert((seq![34u8] + esc(ns[0]))[0] == seq![34u8][0]);
            if ns.len() >= 2 {
                assert(names_doc(ns)[0] == (quoted(ns[0]) + seq![44u8])[0]);
            }
        }
        assert(d[10] == 34);
        assert(d.subrange(10, 10 + nl) =~= names_doc(ns));
        assert(d[10 + nl] == doc_mid()[0]);
        lemma_parse_names_of(d, 10, ns, true);
    } else {
        assert(nl == 0);
        assert(names_doc(ns) =~= Seq::<u8>::empty());
        assert(d[10] == doc_mid()[0]);
        assert(d[10] != 34);
    }
    let p = 10 + nl;
    if es.len() > 0 {
        assert(edges_doc(es)[0] == 91) by {
            if es.len() == 1 {
                assert(edges_doc(es) == edge_doc(es[0]));
            } else {
                lemma_edges_doc_first(es);
                assert(edges_doc(es)[0] == (edge_doc(es[0]) + seq![44u8])[0]);
            }
            assert(edge_doc(es[0])[0] == (seq![91u8] + dec(es[0].a as u64))[0]);
            assert((seq![91u8] + dec(es[0].a as u64))[0] == seq![91u8][0]);
        }
        assert(d[p + 11] == 91);
        assert(d.subrange(p + 11, p + 11 + el) =~= edges_doc(es));
        assert(d[p + 11 + el] == 93);
        lemma_parse_edges_of(d, p + 11, es, true);
    } else {
        assert(el == 0);
        assert(edges_doc(es) =~= Seq::<u8>::empty());
        assert(d[p + 11] == doc_tail()[0]);
        assert(d[p + 11] != 91);
    }
    assert(spec_parse_doc(d) == Some((ns, es)));
}

} // verus!
