//! Block execution results and their stored form.
//!
//! One block execution ends in exactly one of three ways: a success
//! value, a failure message, or neither (the block was skipped by
//! conditional logic for that input). A trace file holds one JSON array
//! of such results, one entry per fan-out branch of one input row:
//! `{"value":V,"error":E}` with the absent side written `null`.

use vstd::prelude::*;
use crate::bytes::{bytes_eq, match_at, push_bytes, subvec};
use crate::scan::{
    json_blob_wf, json_value_check, lemma_scan_escaped, lemma_unescape_escape, push_escaped,
    spec_escape, spec_scan_str, spec_scan_value, spec_unescape, unescape_region, value_end,
};

verus! {

/// Mathematical content of a `BlockExecution`.
pub enum ExecV {
    /// The block produced a value: one whole JSON blob, never `null`.
    Success(Seq<u8>),
    /// The block failed with a message.
    Failure(Seq<u8>),
    /// The block was skipped: neither value nor message.
    Skipped,
}

/// The result of executing one block on one input, on one branch.
#[derive(Debug, PartialEq)]
pub enum BlockExecution {
    /// The block produced this JSON value (stored verbatim).
    Success(Vec<u8>),
    /// The block failed with this message.
    Failure(Vec<u8>),
    /// The block was skipped by conditional logic.
    Skipped,
}

impl View for BlockExecution {
    type V = ExecV;

    open spec fn view(&self) -> ExecV {
        match self {
            BlockExecution::Success(v) => ExecV::Success(v@),
            BlockExecution::Failure(m) => ExecV::Failure(m@),
            BlockExecution::Skipped => ExecV::Skipped,
        }
    }
}

/// `null`
pub open spec fn lit_null() -> Seq<u8> {
    seq![0x6e, 0x75, 0x6c, 0x6c]
}

/// `{"value":`
pub open spec fn lit_value() -> Seq<u8> {
    seq![0x7b, 0x22, 0x76, 0x61, 0x6c, 0x75, 0x65, 0x22, 0x3a]
}

/// `,"error":`
pub open spec fn lit_error() -> Seq<u8> {
    seq![0x2c, 0x22, 0x65, 0x72, 0x72, 0x6f, 0x72, 0x22, 0x3a]
}

/// A storable execution result: success values are whole JSON blobs
/// other than `null` (a stored `null` means "no value"). Failure
/// messages need no condition: any bytes escape.
pub open spec fn exec_wf(x: ExecV) -> bool {
    match x {
        ExecV::Success(v) => json_blob_wf(v) && v != lit_null(),
        ExecV::Failure(_) => true,
        ExecV::Skipped => true,
    }
}

/// Every entry of an execution list is storable.
pub open spec fn execs_wf(xs: Seq<ExecV>) -> bool {
    forall|i: int| 0 <= i < xs.len() ==> exec_wf(#[trigger] xs[i])
}

/// One stored `{"value":V,"error":E}` object.
pub open spec fn spec_ser_exec(x: ExecV) -> Seq<u8> {
    match x {
        ExecV::Success(v) => lit_value() + v + lit_error() + lit_null() + seq![0x7du8],
        ExecV::Failure(m) => lit_value() + lit_null() + lit_error() + seq![0x22u8]
            + spec_escape(m) + seq![0x22u8, 0x7du8],
        ExecV::Skipped => lit_value() + lit_null() + lit_error() + lit_null() + seq![0x7du8],
    }
}

/// The comma-separated entries of a stored execution array.
pub open spec fn spec_ser_exec_items(xs: Seq<ExecV>) -> Seq<u8>
    decreases xs.len(),
{
    if xs.len() == 0 {
        Seq::empty()
    } else if xs.len() == 1 {
        spec_ser_exec(xs[0])
    } else {
        spec_ser_exec(xs[0]) + seq![0x2cu8] + spec_ser_exec_items(xs.drop_first())
    }
}

/// The exact bytes of one stored trace file: a JSON array of results.
pub open spec fn spec_ser_execs(xs: Seq<ExecV>) -> Seq<u8> {
    seq![0x5bu8] + spec_ser_exec_items(xs) + seq![0x5du8]
}

fn lit_null_vec() -> (r: Vec<u8>)
    ensures
        r@ == lit_null(),
{
    let mut r: Vec<u8> = Vec::new();
    r.push(0x6e); r.push(0x75); r.push(0x6c); r.push(0x6c);
    proof {
        assert(r@ =~= lit_null());
    }
    r
}

fn lit_value_vec() -> (r: Vec<u8>)
    ensures
        r@ == lit_value(),
{
    let mut r: Vec<u8> = Vec::new();
    r.push(0x7b); r.push(0x22); r.push(0x76); r.push(0x61); r.push(0x6c); r.push(0x75);
    r.push(0x65); r.push(0x22); r.push(0x3a);
    proof {
        assert(r@ =~= lit_value());
    }
    r
}

fn lit_error_vec() -> (r: Vec<u8>)
    ensures
        r@ == lit_error(),
{
    let mut r: Vec<u8> = Vec::new();
    r.push(0x2c); r.push(0x22); r.push(0x65); r.push(0x72); r.push(0x72); r.push(0x6f);
    r.push(0x72); r.push(0x22); r.push(0x3a);
    proof {
        assert(r@ =~= lit_error());
    }
    r
}

/// Writes one `{"value":V,"error":E}` object.
fn ser_exec(x: &BlockExecution, out: &mut Vec<u8>)
    ensures
        final(out)@ == old(out)@ + spec_ser_exec(x@),
{
    let lv = lit_value_vec();
    let le = lit_error_vec();
    let ln = lit_null_vec();
    push_bytes(out, &lv);
    match x {
        BlockExecution::Success(v) => {
            push_bytes(out, v);
            push_bytes(out, &le);
            push_bytes(out, &ln);
            out.push(0x7d);
        },
        BlockExecution::Failure(m) => {
            push_bytes(out, &ln);
            push_bytes(out, &le);
            out.push(0x22);
            push_escaped(out, m);
            out.push(0x22);
            out.push(0x7d);
        },
        BlockExecution::Skipped => {
            push_bytes(out, &ln);
            push_bytes(out, &le);
            push_bytes(out, &ln);
            out.push(0x7d);
        },
    }
    proof {
        assert(out@ =~= old(out)@ + spec_ser_exec(x@));
    }
}

/// The per-entry views of an execution list.
pub open spec fn execs_view(xs: Seq<BlockExecution>) -> Seq<ExecV> {
    xs.map_values(|x: BlockExecution| x@)
}

/// Writes the array entries from `i` on.
fn ser_exec_items(xs: &Vec<BlockExecution>, i: usize, out: &mut Vec<u8>)
    requires
        i <= xs@.len(),
    ensures
        final(out)@ == old(out)@ + spec_ser_exec_items(execs_view(xs@).skip(i as int)),
    decreases xs@.len() - i,
{
    let ghost xv = execs_view(xs@);
    if i == xs.len() {
        proof {
            assert(xv.skip(i as int) =~= Seq::<ExecV>::empty());
            assert(out@ =~= old(out)@ + spec_ser_exec_items(xv.skip(i as int)));
        }
        return;
    }
    ser_exec(&xs[i], out);
    proof {
        assert(xv.skip(i as int)[0] == xv[i as int]);
    }
    if i + 1 < xs.len() {
        out.push(0x2c);
        ser_exec_items(xs, i + 1, out);
        proof {
            assert(xv.skip(i as int).drop_first() =~= xv.skip(i as int + 1));
            assert(out@ =~= old(out)@ + spec_ser_exec_items(xv.skip(i as int)));
        }
    } else {
        proof {
            assert(xv.skip(i as int).len() == 1);
            assert(out@ =~= old(out)@ + spec_ser_exec_items(xv.skip(i as int)));
        }
    }
}

/// Renders one input row's execution results exactly as stored in its
/// trace file.
pub fn serialize_execs(xs: &Vec<BlockExecution>) -> (r: Vec<u8>)
    ensures
        r@ == spec_ser_execs(execs_view(xs@)),
{
    let mut out: Vec<u8> = Vec::new();
    out.push(0x5b);
    ser_exec_items(xs, 0, &mut out);
    out.push(0x5d);
    proof {
        assert(execs_view(xs@).skip(0) =~= execs_view(xs@));
        assert(out@ =~= spec_ser_execs(execs_view(xs@)));
    }
    out
}

/// Parses the entries of a stored execution array starting at `i`,
/// through the closing `]`.
pub open spec fn spec_parse_exec_items(s: Seq<u8>, i: int) -> Option<(Seq<ExecV>, int)>
    decreases s.len() - i,
{
    if !(0 <= i && i + lit_value().len() <= s.len()
        && s.subrange(i, i + lit_value().len()) == lit_value()) {
        None
    } else {
        let pv = i + lit_value().len();
        match spec_scan_value(s, pv) {
            None => None,
            Some(ev) => {
                let v = s.subrange(pv, ev);
                if !(pv < ev && ev + lit_error().len() < s.len() && json_blob_wf(v)
                    && s.subrange(ev, ev + lit_error().len()) == lit_error()) {
                    None
                } else {
                    let pe = ev + lit_error().len();
                    match spec_scan_value(s, pe) {
                        None => None,
                        Some(ee) => {
                            let w = s.subrange(pe, ee);
                            if !(pe < ee && ee < s.len()
                                && (w == lit_null()
                                    || (w.len() >= 2 && w[0] == 0x22 && w.last() == 0x22
                                        && spec_unescape(s, pe + 1, ee - 1) is Some))) {
                                None
                            } else if s[ee] != 0x7d {
                                None
                            } else {
                                let x = if v == lit_null() {
                                    if w == lit_null() {
                                        Some(ExecV::Skipped)
                                    } else {
                                        match spec_unescape(s, pe + 1, ee - 1) {
                                            None => None,
                                            Some(m) => Some(ExecV::Failure(m)),
                                        }
                                    }
                                } else {
                                    if w == lit_null() {
                                        Some(ExecV::Success(v))
                                    } else {
                                        None
                                    }
                                };
                                match x {
                                    None => None,
                                    Some(x) => {
                                        if !(ee + 1 < s.len()) {
                                            None
                                        } else if s[ee + 1] == 0x5d {
                                            Some((seq![x], ee + 2))
                                        } else if s[ee + 1] == 0x2c {
                                            match spec_parse_exec_items(s, ee + 2) {
                                                None => None,
                                                Some((rest, e2)) => Some((seq![x] + rest, e2)),
                                            }
                                        } else {
                                            None
                                        }
                                    },
                                }
                            }
                        },
                    }
                }
            },
        }
    }
}

/// Parses a whole stored trace file; `None` exactly when the bytes are
/// not a stored execution array.
pub open spec fn spec_parse_execs(s: Seq<u8>) -> Option<Seq<ExecV>> {
    if s.len() >= 1 && s[0] == 0x5b {
        if s.len() == 2 && s[1] == 0x5d {
            Some(Seq::empty())
        } else {
            match spec_parse_exec_items(s, 1) {
                None => None,
                Some((xs, e)) => {
                    if e == s.len() {
                        Some(xs)
                    } else {
                        None
                    }
                },
            }
        }
    } else {
        None
    }
}

/// Parses array entries starting at `i`.
fn parse_exec_items(s: &Vec<u8>, i: usize) -> (r: Option<(Vec<BlockExecution>, usize)>)
    requires
        i <= s@.len(),
    ensures
        match r {
            Some((xs, e)) => spec_parse_exec_items(s@, i as int)
                == Some((execs_view(xs@), e as int)) && i < e <= s@.len(),
            None => spec_parse_exec_items(s@, i as int) is None,
        },
    decreases s@.len() - i,
{
    proof {
        assert(s@.len() == s.len());
    }
    let lv = lit_value_vec();
    let le = lit_error_vec();
    let ln = lit_null_vec();
    if !match_at(s, i, &lv) {
        return None;
    }
    let pv = i + lv.len();
    let ev = match value_end(s, pv) {
        Some(e) => e,
        None => { return None; },
    };
    let v = subvec(s, pv, ev);
    if !match_at(s, ev, &le) {
        return None;
    }
    if !json_value_check(&v) {
        return None;
    }
    let pe = ev + le.len();
    if pe >= s.len() {
        proof {
            assert(spec_scan_value(s@, pe as int) is None);
        }
        return None;
    }
    let ee = match value_end(s, pe) {
        Some(e) => e,
        None => { return None; },
    };
    let w = subvec(s, pe, ee);
    let w_is_null = bytes_eq(&w, &ln);
    let w_is_str = w.len() >= 2 && w[0] == 0x22 && w[w.len() - 1] == 0x22;
    let msg: Option<Vec<u8>> = if w_is_null {
        None
    } else {
        if !w_is_str {
            return None;
        }
        match unescape_region(s, pe + 1, ee - 1) {
            Some(m) => Some(m),
            None => { return None; },
        }
    };
    if ee >= s.len() {
        return None;
    }
    if s[ee] != 0x7d {
        return None;
    }
    let x = if bytes_eq(&v, &ln) {
        if w_is_null {
            BlockExecution::Skipped
        } else {
            match msg {
                Some(m) => BlockExecution::Failure(m),
                None => { return None; },
            }
        }
    } else {
        if w_is_null {
            BlockExecution::Success(v)
        } else {
            return None;
        }
    };
    if !(ee + 1 < s.len()) {
        return None;
    }
    if s[ee + 1] == 0x5d {
        let mut xs: Vec<BlockExecution> = Vec::new();
        xs.push(x);
        proof {
            assert(execs_view(xs@) =~= seq![xs@[0]@]);
        }
        Some((xs, ee + 2))
    } else if s[ee + 1] == 0x2c {
        match parse_exec_items(s, ee + 2) {
            None => None,
            Some((rest, e2)) => {
                let ghost rest_view = execs_view(rest@);
                let mut xs: Vec<BlockExecution> = Vec::new();
                xs.push(x);
                let mut rest = rest;
                xs.append(&mut rest);
                proof {
                    assert(execs_view(xs@) =~= seq![xs@[0]@] + rest_view);
                }
                Some((xs, e2))
            },
        }
    } else {
        None
    }
}

/// Parsing the entries written for a non-empty execution list yields
/// exactly that list, ending just past the closing bracket.
#[verifier::rlimit(100)]
#[verifier::spinoff_prover]
proof fn lemma_parse_exec_items_of_ser(s: Seq<u8>, xs: Seq<ExecV>, off: int)
    requires
        xs.len() >= 1,
        execs_wf(xs),
        0 <= off,
        off + spec_ser_exec_items(xs).len() < s.len(),
        forall|j: int| 0 <= j < spec_ser_exec_items(xs).len()
            ==> s[off + j] == #[trigger] spec_ser_exec_items(xs)[j],
        s[off + spec_ser_exec_items(xs).len()] == 0x5d,
    ensures
        spec_parse_exec_items(s, off) == Some((xs, off + spec_ser_exec_items(xs).len() + 1)),
    decreases xs.len(),
{
    let si = spec_ser_exec_items(xs);
    let h = spec_ser_exec(xs[0]);
    // the stored value and stored error of the head entry
    let vv = match xs[0] {
        ExecV::Success(v) => v,
        _ => lit_null(),
    };
    let ww = match xs[0] {
        ExecV::Failure(m) => seq![0x22u8] + spec_escape(m) + seq![0x22u8],
        _ => lit_null(),
    };
    assert(h =~= lit_value() + vv + lit_error() + ww + seq![0x7du8]);
    let pv = off + lit_value().len();
    let ev = pv + vv.len() as int;
    let pe = ev + lit_error().len();
    let ee = pe + ww.len() as int;
    assert(h.len() == 9 + vv.len() + 9 + ww.len() + 1);
    assert forall|t: int| 0 <= t < h.len() implies s[off + t] == #[trigger] h[t] by {
        assert(si[t] == h[t]);
        assert(s[off + t] == si[t]);
    }
    // both stored values are whole JSON blobs
    assert(spec_scan_value(lit_null(), 0) == Some(4int));
    if xs[0] is Failure {
        let m = xs[0]->Failure_0;
        let em = spec_escape(m);
        assert forall|j: int| 0 <= j < em.len() implies ww[1 + j] == #[trigger] em[j] by {}
        assert(ww[1 + em.len() as int] == 0x22);
        lemma_scan_escaped(ww, m, 1);
        assert(spec_scan_str(ww, 1) == Some(ww.len() - 1));
        assert(spec_scan_value(ww, 0) == Some(ww.len() as int));
        assert(ww != lit_null());
    }
    assert(json_blob_wf(vv));
    assert(json_blob_wf(ww));
    // the leading `{"value":`
    assert forall|t: int| 0 <= t < 9 implies s[off + t] == lit_value()[t] by {
        assert(s[off + t] == h[t]);
        assert(h[t] == lit_value()[t]);
    }
    assert(s.subrange(off, off + 9) =~= lit_value());
    // the value blob, followed by the comma of `,"error":`
    assert forall|t: int| 0 <= t < vv.len() implies s[pv + t] == #[trigger] vv[t] by {
        assert(s[off + (9 + t)] == h[9 + t]);
        assert(h[9 + t] == vv[t]);
    }
    assert(s[ev] == h[9 + vv.len() as int] && h[9 + vv.len() as int] == 0x2c);
    crate::scan::lemma_embed_value(s, vv, pv, 0);
    assert(spec_scan_value(s, pv) == Some(ev));
    assert(s.subrange(pv, ev) =~= vv);
    // the `,"error":` literal
    assert forall|t: int| 0 <= t < 9 implies s[ev + t] == lit_error()[t] by {
        assert(s[off + (9 + vv.len() + t)] == h[9 + vv.len() + t]);
        assert(h[9 + vv.len() + t] == lit_error()[t]);
    }
    assert(s.subrange(ev, ev + 9) =~= lit_error());
    // the error value, followed by the closing brace
    assert forall|t: int| 0 <= t < ww.len() implies s[pe + t] == #[trigger] ww[t] by {
        assert(s[off + (9 + vv.len() + 9 + t)] == h[9 + vv.len() + 9 + t]);
        assert(h[9 + vv.len() + 9 + t] == ww[t]);
    }
    assert(s[ee] == h[h.len() - 1] && h[h.len() - 1] == 0x7d);
    crate::scan::lemma_embed_value(s, ww, pe, 0);
    assert(spec_scan_value(s, pe) == Some(ee));
    assert(s.subrange(pe, ee) =~= ww);
    if xs[0] is Failure {
        let m = xs[0]->Failure_0;
        let em = spec_escape(m);
        assert forall|j: int| 0 <= j < em.len() implies s[pe + 1 + j] == #[trigger] em[j] by {
            assert(s[pe + (1 + j)] == ww[1 + j]);
            assert(ww[1 + j] == em[j]);
        }
        lemma_unescape_escape(s, m, pe + 1);
        assert(spec_unescape(s, pe + 1, ee - 1) == Some(m));
    }
    if xs.len() == 1 {
        assert(ee + 1 == off + si.len());
        assert(seq![xs[0]] =~= xs);
    } else {
        let rest = xs.drop_first();
        let sr = spec_ser_exec_items(rest);
        assert(si == h + seq![0x2cu8] + sr);
        assert(s[ee + 1] == si[h.len() as int] && si[h.len() as int] == 0x2c);
        assert forall|j: int| 0 <= j < sr.len() implies s[ee + 2 + j] == #[trigger] sr[j] by {
            assert(si[h.len() + 1 + j] == sr[j]);
            assert(s[off + (h.len() + 1 + j)] == si[h.len() + 1 + j]);
        }
        assert(ee + 2 + sr.len() == off + si.len());
        lemma_parse_exec_items_of_ser(s, rest, ee + 2);
        assert(seq![xs[0]] + rest =~= xs);
    }
}

/// The stored form of an execution list reads back as that same list:
/// what `store` writes for an input row, an inspect read-back returns.
pub proof fn lemma_execs_round_trip(xs: Seq<ExecV>)
    requires
        execs_wf(xs),
    ensures
        spec_parse_execs(spec_ser_execs(xs)) == Some(xs),
{
    let s = spec_ser_execs(xs);
    let si = spec_ser_exec_items(xs);
    if xs.len() == 0 {
        assert(si =~= Seq::<u8>::empty());
        assert(s.len() == 2 && s[0] == 0x5b && s[1] == 0x5d);
        assert(xs =~= Seq::<ExecV>::empty());
    } else {
        assert(spec_ser_exec(xs[0]).len() >= 20);
        assert(si.len() >= 1);
        assert(s[0] == 0x5b);
        assert(s.len() == si.len() + 2);
        assert forall|j: int| 0 <= j < si.len() implies s[1 + j] == #[trigger] si[j] by {}
        assert(s[1 + si.len() as int] == 0x5d);
        lemma_parse_exec_items_of_ser(s, xs, 1);
        assert(spec_parse_exec_items(s, 1) == Some((xs, s.len() as int)));
    }
}

/// Reads a stored trace file back; `None` exactly when the bytes are
/// not a stored execution array.
pub fn parse_execs(s: &Vec<u8>) -> (r: Option<Vec<BlockExecution>>)
    ensures
        match r {
            Some(xs) => spec_parse_execs(s@) == Some(execs_view(xs@)),
            None => spec_parse_execs(s@) is None,
        },
{
    if s.len() == 0 {
        return None;
    }
    if s[0] != 0x5b {
        return None;
    }
    if s.len() == 2 && s[1] == 0x5d {
        let xs: Vec<BlockExecution> = Vec::new();
        proof {
            assert(execs_view(xs@) =~= Seq::<ExecV>::empty());
        }
        return Some(xs);
    }
    match parse_exec_items(s, 1) {
        None => None,
        Some((xs, e)) => {
            if e == s.len() {
                Some(xs)
            } else {
                None
            }
        },
    }
}

/// Exact test for storability of one input row's results.
pub fn execs_check(xs: &Vec<BlockExecution>) -> (r: bool)
    ensures
        r == execs_wf(execs_view(xs@)),
{
    let ln = lit_null_vec();
    let mut i: usize = 0;
    while i < xs.len()
        invariant
            0 <= i <= xs@.len(),
            ln@ == lit_null(),
            forall|k: int| 0 <= k < i ==> exec_wf(#[trigger] execs_view(xs@)[k]),
        decreases xs@.len() - i,
    {
        proof {
            assert(execs_view(xs@)[i as int] == xs@[i as int]@);
        }
        match &xs[i] {
            BlockExecution::Success(v) => {
                if !json_value_check(v) {
                    return false;
                }
                if bytes_eq(v, &ln) {
                    return false;
                }
            },
            BlockExecution::Failure(_) => {},
            BlockExecution::Skipped => {},
        }
        i = i + 1;
    }
    true
}

} // verus!
