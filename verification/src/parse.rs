//! The command grammar of the interactive front end, and CSV parsing of
//! transform values.
//!
//! One line of text maps to one command: `"<src> -> <dst> : <csv floats>"`
//! adds a transform, `"<src> -> <dst>"` queries one, the exact tokens
//! `r`/`reset`, `q`/`quit` and `h`/`help` name themselves, and
//! `save <path>` / `load <path>` carry a trimmed, non-empty path.
//! Text is handled as raw bytes, and trimming removes ASCII whitespace
//! only; numbers are parsed by the standard library behind one trusted
//! wrapper.

use vstd::prelude::*;
use vstd::slice::slice_subrange;
use vstd::slice::slice_to_vec;

use crate::se3::Se3;
use crate::se3::from_array;
use crate::se3::from_array_spec;
use crate::bytes_eq;

verus! {

/// Whether `b` is an ASCII whitespace byte — the bytes trimmed from
/// commands, names and CSV fields. Trimming is deliberately ASCII-only:
/// text is handled as raw bytes, so the bytes of a multi-byte character
/// (a no-break space, say) are never removed and never split; a line
/// padded with such a character is malformed rather than trimmed.
pub open spec fn is_ws(b: u8) -> bool {
    b == 32 || b == 9 || b == 10 || b == 13 || b == 11 || b == 12
}

/// Whether `b` is removed from the ends of a CSV value list: a bracket or a
/// space.
pub open spec fn is_bracket(b: u8) -> bool {
    b == 91 || b == 93 || b == 32
}

/// The byte set a trim pass removes: whitespace when `ws`, else brackets.
pub open spec fn in_trim_set(b: u8, ws: bool) -> bool {
    if ws {
        is_ws(b)
    } else {
        is_bracket(b)
    }
}

/// `s` without its leading bytes of the selected trim set.
pub open spec fn trim_front_spec(s: Seq<u8>, ws: bool) -> Seq<u8>
    decreases s.len(),
{
    if s.len() > 0 && in_trim_set(s[0], ws) {
        trim_front_spec(s.drop_first(), ws)
    } else {
        s
    }
}

/// `s` without its trailing bytes of the selected trim set.
pub open spec fn trim_back_spec(s: Seq<u8>, ws: bool) -> Seq<u8>
    decreases s.len(),
{
    if s.len() > 0 && in_trim_set(s.last(), ws) {
        trim_back_spec(s.drop_last(), ws)
    } else {
        s
    }
}

/// `s` without leading and trailing bytes of the selected trim set.
pub open spec fn trim_spec(s: Seq<u8>, ws: bool) -> Seq<u8> {
    trim_back_spec(trim_front_spec(s, ws), ws)
}

fn in_trim_set_x(b: u8, ws: bool) -> (r: bool)
    ensures
        r == in_trim_set(b, ws),
{
    if ws {
        b == 32 || b == 9 || b == 10 || b == 13 || b == 11 || b == 12
    } else {
        b == 91 || b == 93 || b == 32
    }
}

fn trim_front_x(s: &[u8], ws: bool) -> (r: &[u8])
    ensures
        r@ == trim_front_spec(s@, ws),
    decreases s@.len(),
{
    if s.len() > 0 && in_trim_set_x(s[0], ws) {
        let t = slice_subrange(s, 1, s.len());
        proof {
            assert(t@ =~= s@.drop_first());
        }
        trim_front_x(t, ws)
    } else {
        s
    }
}

fn trim_back_x(s: &[u8], ws: bool) -> (r: &[u8])
    ensures
        r@ == trim_back_spec(s@, ws),
    decreases s@.len(),
{
    if s.len() > 0 && in_trim_set_x(s[s.len() - 1], ws) {
        let t = slice_subrange(s, 0, s.len() - 1);
        proof {
            assert(t@ =~= s@.drop_last());
        }
        trim_back_x(t, ws)
    } else {
        s
    }
}

fn trim_x(s: &[u8], ws: bool) -> (r: &[u8])
    ensures
        r@ == trim_spec(s@, ws),
{
    trim_back_x(trim_front_x(s, ws), ws)
}

/// Whether `s` holds the byte `d`.
pub open spec fn has_byte(s: Seq<u8>, d: u8) -> bool {
    exists|i: int| 0 <= i < s.len() && s[i] == d
}

/// Whether `i` is the position of the first `d` in `s`.
pub open spec fn is_first_occ(s: Seq<u8>, d: u8, i: int) -> bool {
    &&& 0 <= i < s.len()
    &&& s[i] == d
    &&& forall|j: int| 0 <= j < i ==> s[j] != d
}

/// The position of the first `d` in `s` (meaningful only when `has_byte`).
pub open spec fn first_occ(s: Seq<u8>, d: u8) -> int {
    choose|i: int| is_first_occ(s, d, i)
}

proof fn lemma_first_occ(s: Seq<u8>, d: u8, i: int)
    requires
        is_first_occ(s, d, i),
    ensures
        has_byte(s, d),
        first_occ(s, d) == i,
{
    let c = first_occ(s, d);
    assert(is_first_occ(s, d, c));
    if c < i {
        assert(s[c] != d);
    }
    if c > i {
        assert(s[i] != d);
    }
}

proof fn lemma_has_first_occ(s: Seq<u8>, d: u8)
    requires
        has_byte(s, d),
    ensures
        exists|i: int| is_first_occ(s, d, i),
        0 <= first_occ(s, d) < s.len(),
    decreases s.len(),
{
    if s[0] == d {
        assert(is_first_occ(s, d, 0));
    } else {
        let w = choose|i: int| 0 <= i < s.len() && s[i] == d;
        assert(s.drop_first()[w - 1] == d);
        lemma_has_first_occ(s.drop_first(), d);
        let j = choose|i: int| is_first_occ(s.drop_first(), d, i);
        assert(forall|k: int| 0 <= k < j + 1 ==> s[k] != d) by {
            assert(forall|k: int| 1 <= k < j + 1 ==> s[k] == s.drop_first()[k - 1]);
        }
        assert(is_first_occ(s, d, j + 1));
    }
    let c = first_occ(s, d);
    assert(is_first_occ(s, d, c));
}

/// What a parse of a byte string as a decimal `f64` returns: `None` when the
/// text is not a valid number, otherwise the bit pattern of the value.
pub uninterp spec fn parse_f64_bits(s: Seq<u8>) -> Option<u64>;

/// Relies on `str::parse::<f64>` of the standard library, whose result
/// depends on the text alone; named `parse_f64_bits`.
#[verifier::external_body]
fn parse_f64(s: &[u8]) -> (r: Option<u64>)
    ensures
        r == parse_f64_bits(s@),
{
    let z = std::time::Duration::ZERO.as_secs_f64();
    match core::str::from_utf8(s) {
        Ok(t) => match t.parse() {
            Ok(v) => {
                let _pin = [v, z];
                Some(v.to_bits())
            },
            Err(_) => None,
        },
        Err(_) => None,
    }
}

/// The values of a delimiter-separated list: each field is trimmed of
/// whitespace and parsed as a number; `None` when any field fails to parse.
pub open spec fn parse_fields_spec(s: Seq<u8>, d: u8) -> Option<Seq<u64>>
    decreases s.len(),
    via parse_fields_spec_dec
{
    if has_byte(s, d) {
        let i = first_occ(s, d);
        match parse_f64_bits(trim_spec(s.take(i), true)) {
            Some(v) => match parse_fields_spec(s.skip(i + 1), d) {
                Some(rest) => Some(seq![v] + rest),
                None => None,
            },
            None => None,
        }
    } else {
        match parse_f64_bits(trim_spec(s, true)) {
            Some(v) => Some(seq![v]),
            None => None,
        }
    }
}

#[via_fn]
proof fn parse_fields_spec_dec(s: Seq<u8>, d: u8) {
    if has_byte(s, d) {
        lemma_has_first_occ(s, d);
    }
}

/// What `parse_csv` returns: the list is first trimmed of brackets and
/// spaces at its ends, then split at the delimiter, and every field must
/// parse as a number.
pub open spec fn parse_csv_spec(s: Seq<u8>, d: u8) -> Option<Seq<u64>> {
    parse_fields_spec(trim_spec(s, false), d)
}

fn parse_fields(s: &[u8], d: u8) -> (r: Option<Vec<u64>>)
    ensures
        (r is Some) == (parse_fields_spec(s@, d) is Some),
        r matches Some(v) ==> parse_fields_spec(s@, d) == Some(v@),
    decreases s@.len(),
{
    let mut i: usize = 0;
    while i < s.len() && s[i] != d
        invariant
            i <= s@.len(),
            forall|j: int| 0 <= j < i ==> s@[j] != d,
        decreases s@.len() - i,
    {
        i = i + 1;
    }
    if i < s.len() {
        proof {
            lemma_first_occ(s@, d, i as int);
        }
        let head = trim_x(slice_subrange(s, 0, i), true);
        proof {
            assert(s@.subrange(0, i as int) =~= s@.take(i as int));
        }
        match parse_f64(head) {
            Some(v) => {
                let tail = slice_subrange(s, i + 1, s.len());
                proof {
                    assert(tail@ =~= s@.skip(i + 1));
                }
                match parse_fields(tail, d) {
                    Some(mut rest) => {
                        let mut out: Vec<u64> = Vec::new();
                        out.push(v);
                        out.append(&mut rest);
                        proof {
                            assert(parse_fields_spec(s@, d) =~~= Some(out@));
                        }
                        Some(out)
                    },
                    None => None,
                }
            },
            None => None,
        }
    } else {
        proof {
            assert(!has_byte(s@, d));
        }
        match parse_f64(trim_x(s, true)) {
            Some(v) => {
                let mut out: Vec<u64> = Vec::new();
                out.push(v);
                proof {
                    assert(parse_fields_spec(s@, d) =~~= Some(out@));
                }
                Some(out)
            },
            None => None,
        }
    }
}

/// One parsed command line.
#[derive(Debug, PartialEq, Eq)]
pub enum Input {
    /// Add a transform between two frames.
    Add { from: Vec<u8>, to: Vec<u8>, tf: Se3 },
    /// Query the transform between two frames.
    Query { from: Vec<u8>, to: Vec<u8> },
    /// Clear the graph.
    Reset,
    /// Leave the program.
    Quit,
    /// Show the command summary.
    Help,
    /// Load the graph from the named file.
    Load(Vec<u8>),
    /// Save the graph to the named file.
    Save(Vec<u8>),
}

/// The mathematical value of one parsed command line.
pub enum CmdSpec {
    Add { from: Seq<u8>, to: Seq<u8>, tf: Seq<u64> },
    Query { from: Seq<u8>, to: Seq<u8> },
    Reset,
    Quit,
    Help,
    Load(Seq<u8>),
    Save(Seq<u8>),
}

/// The mathematical value of a parsed command.
pub open spec fn input_view(i: Input) -> CmdSpec {
    match i {
        Input::Add { from, to, tf } => CmdSpec::Add { from: from@, to: to@, tf: tf@ },
        Input::Query { from, to } => CmdSpec::Query { from: from@, to: to@ },
        Input::Reset => CmdSpec::Reset,
        Input::Quit => CmdSpec::Quit,
        Input::Help => CmdSpec::Help,
        Input::Load(p) => CmdSpec::Load(p@),
        Input::Save(p) => CmdSpec::Save(p@),
    }
}

/// Whether position `i` starts the first `->` of `s`.
pub open spec fn is_first_arrow(s: Seq<u8>, i: int) -> bool {
    &&& 0 <= i
    &&& i + 1 < s.len()
    &&& s[i] == 45
    &&& s[i + 1] == 62
    &&& forall|j: int| 0 <= j < i ==> !((#[trigger] s[j]) == 45 && s[j + 1] == 62)
}

/// Whether `s` holds an `->` anywhere.
pub open spec fn has_arrow(s: Seq<u8>) -> bool {
    exists|i: int| 0 <= i && i + 1 < s.len() && (#[trigger] s[i]) == 45 && s[i + 1] == 62
}

/// The position of the first `->` of `s` (meaningful only when `has_arrow`).
pub open spec fn first_arrow(s: Seq<u8>) -> int {
    choose|i: int| is_first_arrow(s, i)
}

proof fn lemma_first_arrow(s: Seq<u8>, i: int)
    requires
        is_first_arrow(s, i),
    ensures
        has_arrow(s),
        first_arrow(s) == i,
{
    let c = first_arrow(s);
    assert(is_first_arrow(s, c));
    if c < i {
        assert(!(s[c] == 45 && s[c + 1] == 62));
    }
    if c > i {
        assert(!(s[i] == 45 && s[i + 1] == 62));
    }
}

/// The byte string `quit`.
pub open spec fn lit_quit() -> Seq<u8> {
    seq![113u8, 117u8, 105u8, 116u8]
}

/// The byte string `reset`.
pub open spec fn lit_reset() -> Seq<u8> {
    seq![114u8, 101u8, 115u8, 101u8, 116u8]
}

/// The byte string `help`.
pub open spec fn lit_help() -> Seq<u8> {
    seq![104u8, 101u8, 108u8, 112u8]
}

/// The byte string `save ` (with its trailing space).
pub open spec fn lit_save() -> Seq<u8> {
    seq![115u8, 97u8, 118u8, 101u8, 32u8]
}

/// The byte string `load ` (with its trailing space).
pub open spec fn lit_load() -> Seq<u8> {
    seq![108u8, 111u8, 97u8, 100u8, 32u8]
}

/// What `parse_input` returns for one line of text. The line is trimmed of
/// whitespace; the exact tokens come first, then `save`/`load` with a
/// non-empty path, then `src -> dst : values` (a transform to add, whose
/// value list must build a valid transform), then `src -> dst` (a query).
/// Anything else is malformed.
pub open spec fn parse_input_spec(l: Seq<u8>) -> Option<CmdSpec> {
    let t = trim_spec(l, true);
    if t == seq![113u8] || t == lit_quit() {
        Some(CmdSpec::Quit)
    } else if t == seq![114u8] || t == lit_reset() {
        Some(CmdSpec::Reset)
    } else if t == seq![104u8] || t == lit_help() {
        Some(CmdSpec::Help)
    } else if t.len() >= 5 && t.take(5) == lit_save() {
        let p = trim_spec(t.skip(5), true);
        if p.len() == 0 {
            None
        } else {
            Some(CmdSpec::Save(p))
        }
    } else if t.len() >= 5 && t.take(5) == lit_load() {
        let p = trim_spec(t.skip(5), true);
        if p.len() == 0 {
            None
        } else {
            Some(CmdSpec::Load(p))
        }
    } else if has_arrow(t) {
        let i = first_arrow(t);
        let src = trim_spec(t.take(i), true);
        let rem = t.skip(i + 2);
        if has_byte(rem, 58) {
            let k = first_occ(rem, 58);
            let dst = trim_spec(rem.take(k), true);
            match parse_csv_spec(rem.skip(k + 1), 44) {
                Some(vals) => match from_array_spec(vals) {
                    Some(p) => Some(CmdSpec::Add { from: src, to: dst, tf: p }),
                    None => None,
                },
                None => None,
            }
        } else {
            Some(CmdSpec::Query { from: src, to: trim_spec(rem, true) })
        }
    } else {
        None
    }
}

fn is_lit(t: &[u8], lit: &[u8]) -> (r: bool)
    ensures
        r == (t@ == lit@),
{
    bytes_eq(t, lit)
}

/// Maps one line of text to one command, or `None` when the line is
/// malformed.
pub fn parse_input(line: &[u8]) -> (r: Option<Input>)
    ensures
        (r is Some) == (parse_input_spec(line@) is Some),
        r matches Some(i) ==> parse_input_spec(line@) == Some(input_view(i)),
{
    let t = trim_x(line, true);
    let q: [u8; 1] = [113];
    let quit: [u8; 4] = [113, 117, 105, 116];
    let rr: [u8; 1] = [114];
    let reset: [u8; 5] = [114, 101, 115, 101, 116];
    let h: [u8; 1] = [104];
    let help: [u8; 4] = [104, 101, 108, 112];
    let save: [u8; 5] = [115, 97, 118, 101, 32];
    let load: [u8; 5] = [108, 111, 97, 100, 32];
    proof {
        assert(q@ =~= seq![113u8]);
        assert(quit@ =~= lit_quit());
        assert(rr@ =~= seq![114u8]);
        assert(reset@ =~= lit_reset());
        assert(h@ =~= seq![104u8]);
        assert(help@ =~= lit_help());
        assert(save@ =~= lit_save());
        assert(load@ =~= lit_load());
    }
    if is_lit(t, q.as_slice()) || is_lit(t, quit.as_slice()) {
        return Some(Input::Quit);
    }
    if is_lit(t, rr.as_slice()) || is_lit(t, reset.as_slice()) {
        return Some(Input::Reset);
    }
    if is_lit(t, h.as_slice()) || is_lit(t, help.as_slice()) {
        return Some(Input::Help);
    }
    if t.len() >= 5 {
        let head = slice_subrange(t, 0, 5);
        proof {
            assert(head@ =~= t@.take(5));
        }
        if is_lit(head, save.as_slice()) {
            let p = trim_x(slice_subrange(t, 5, t.len()), true);
            proof {
                assert(t@.subrange(5, t@.len() as int) =~= t@.skip(5));
            }
            if p.len() == 0 {
                return None;
            }
            return Some(Input::Save(slice_to_vec(p)));
        }
        if is_lit(head, load.as_slice()) {
            let p = trim_x(slice_subrange(t, 5, t.len()), true);
            proof {
                assert(t@.subrange(5, t@.len() as int) =~= t@.skip(5));
            }
            if p.len() == 0 {
                return None;
            }
            return Some(Input::Load(slice_to_vec(p)));
        }
    }
    proof {
        assert(!(t@.len() >= 5 && t@.take(5) == lit_save())) by {
            if t@.len() >= 5 && t@.take(5) == lit_save() {
                assert(t@.take(5) =~= lit_save());
            }
        }
        assert(!(t@.len() >= 5 && t@.take(5) == lit_load()));
    }
    let n = t.len();
    let mut i: usize = 0;
    while i < n && i + 1 < n && !(t[i] == 45 && t[i + 1] == 62)
        invariant
            n == t@.len(),
            i <= n,
            forall|j: int| 0 <= j < i ==> !((#[trigger] t@[j]) == 45 && t@[j + 1] == 62),
        decreases n - i,
    {
        i = i + 1;
    }
    if i >= n || i + 1 >= n {
        proof {
            assert(!has_arrow(t@));
        }
        return None;
    }
    proof {
        lemma_first_arrow(t@, i as int);
    }
    let src = trim_x(slice_subrange(t, 0, i), true);
    proof {
        assert(t@.subrange(0, i as int) =~= t@.take(i as int));
    }
    let rem = slice_subrange(t, i + 2, t.len());
    proof {
        assert(rem@ =~= t@.skip(i + 2));
    }
    let m = rem.len();
    let mut k: usize = 0;
    while k < m && rem[k] != 58
        invariant
            m == rem@.len(),
            k <= m,
            forall|j: int| 0 <= j < k ==> rem@[j] != 58,
        decreases m - k,
    {
        k = k + 1;
    }
    if k >= m {
        proof {
            assert(!has_byte(rem@, 58));
        }
        let to = trim_x(rem, true);
        return Some(Input::Query { from: slice_to_vec(src), to: slice_to_vec(to) });
    }
    proof {
        lemma_first_occ(rem@, 58, k as int);
    }
    let dst = trim_x(slice_subrange(rem, 0, k), true);
    proof {
        assert(rem@.subrange(0, k as int) =~= rem@.take(k as int));
    }
    let tfs = slice_subrange(rem, k + 1, rem.len());
    proof {
        assert(tfs@ =~= rem@.skip(k + 1));
    }
    match parse_csv(tfs, 44) {
        Some(vals) => match from_array(&vals) {
            Some(p) => Some(Input::Add { from: slice_to_vec(src), to: slice_to_vec(dst), tf: p }),
            None => None,
        },
        None => None,
    }
}

/// Splits `s` at the delimiter, trims each field of whitespace, and parses
/// every field as a number; the whole list may be wrapped in brackets.
/// Returns `None` when any field fails to parse.
pub fn parse_csv(s: &[u8], delim: u8) -> (r: Option<Vec<u64>>)
    ensures
        (r is Some) == (parse_csv_spec(s@, delim) is Some),
        r matches Some(v) ==> parse_csv_spec(s@, delim) == Some(v@),
{
    parse_fields(trim_x(s, false), delim)
}

} // verus!
