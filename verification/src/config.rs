//! The run configuration: the immutable launch record of a run, and its
//! byte-exact stored form (`config.json`).
//!
//! Stored form: `{"start_time":T,"app_hash":"H","blocks":{...}}` with the
//! start time in decimal, the app hash as a JSON-escaped string, and
//! each block entry `"name":blob` holding the block's configuration as
//! an opaque JSON blob, written verbatim. Any byte string can stand as
//! the hash or a name; parsing accepts only this layout and nothing
//! else.

use vstd::prelude::*;
use crate::RunError;
use crate::bytes::{bytes_eq, match_at, push_bytes, subvec};
use crate::dec::{
    dec_digits, dec_to_u64, dec_value, is_digit, lemma_dec_digits_shape,
    lemma_dec_value_of_digits, u64_to_dec,
};
use crate::scan::{
    is_num_byte, json_blob_wf, json_value_check, lemma_embed_value, lemma_scan_escaped,
    lemma_scan_num_run, lemma_unescape_escape, num_end, push_escaped, spec_escape,
    spec_scan_num, spec_scan_str, spec_scan_value, spec_unescape, str_end, unescape_region,
    value_end,
};

verus! {

/// Mathematical content of a `RunConfig`.
#[verifier::ext_equal]
pub struct RunConfigV {
    pub start_time: u64,
    pub app_hash: Seq<u8>,
    pub blocks: Seq<(Seq<u8>, Seq<u8>)>,
}

/// The immutable launch parameters of a run: start time (epoch seconds),
/// opaque app definition hash, and the per-block configuration blobs in
/// a fixed order with unique names.
#[derive(Debug, PartialEq)]
pub struct RunConfig {
    pub start_time: u64,
    pub app_hash: Vec<u8>,
    pub blocks: Vec<(Vec<u8>, Vec<u8>)>,
}

/// The per-entry views of a block list.
pub open spec fn blocks_view(b: Seq<(Vec<u8>, Vec<u8>)>) -> Seq<(Seq<u8>, Seq<u8>)> {
    b.map_values(|p: (Vec<u8>, Vec<u8>)| (p.0@, p.1@))
}

impl View for RunConfig {
    type V = RunConfigV;

    open spec fn view(&self) -> RunConfigV {
        RunConfigV {
            start_time: self.start_time,
            app_hash: self.app_hash@,
            blocks: blocks_view(self.blocks@),
        }
    }
}

/// No block name appears twice.
pub open spec fn names_unique(bs: Seq<(Seq<u8>, Seq<u8>)>) -> bool {
    forall|i: int, j: int| 0 <= i < j < bs.len() ==> bs[i].0 != bs[j].0
}

/// Valid block lists: unique names (any bytes; they store escaped) and
/// whole-JSON values.
pub open spec fn blocks_wf(bs: Seq<(Seq<u8>, Seq<u8>)>) -> bool {
    &&& forall|i: int| 0 <= i < bs.len() ==> json_blob_wf((#[trigger] bs[i]).1)
    &&& names_unique(bs)
}

impl RunConfigV {
    /// A storable configuration: a valid block list. The hash (like
    /// every stored string) needs no condition: any bytes escape.
    pub open spec fn wf(self) -> bool {
        blocks_wf(self.blocks)
    }
}

/// Exact test for unique block names.
fn names_unique_check(blocks: &Vec<(Vec<u8>, Vec<u8>)>) -> (r: bool)
    ensures
        r == names_unique(blocks_view(blocks@)),
{
    let ghost bv = blocks_view(blocks@);
    let mut i: usize = 0;
    while i < blocks.len()
        invariant
            0 <= i <= blocks@.len(),
            bv == blocks_view(blocks@),
            forall|a: int, c: int| 0 <= a < c < i ==> bv[a].0 != bv[c].0,
        decreases blocks@.len() - i,
    {
        let mut j: usize = 0;
        while j < i
            invariant
                0 <= j <= i < blocks@.len(),
                bv == blocks_view(blocks@),
                forall|a: int| 0 <= a < j ==> bv[a].0 != bv[i as int].0,
            decreases i - j,
        {
            proof {
                assert(bv[j as int] == (blocks@[j as int].0@, blocks@[j as int].1@));
                assert(bv[i as int] == (blocks@[i as int].0@, blocks@[i as int].1@));
            }
            if bytes_eq(&blocks[j].0, &blocks[i].0) {
                return false;
            }
            j = j + 1;
        }
        i = i + 1;
    }
    true
}

impl RunConfig {
    /// Exact test for storability: unique block names and whole-JSON
    /// block values. Strings never block storability.
    pub fn wf_check(&self) -> (r: bool)
        ensures
            r == self@.wf(),
    {
        let ghost bv = blocks_view(self.blocks@);
        let mut i: usize = 0;
        while i < self.blocks.len()
            invariant
                0 <= i <= self.blocks@.len(),
                bv == blocks_view(self.blocks@),
                forall|k: int| 0 <= k < i ==> json_blob_wf((#[trigger] bv[k]).1),
            decreases self.blocks@.len() - i,
        {
            proof {
                assert(bv[i as int] == (self.blocks@[i as int].0@, self.blocks@[i as int].1@));
            }
            if !json_value_check(&self.blocks[i].1) {
                return false;
            }
            i = i + 1;
        }
        names_unique_check(&self.blocks)
    }
}

/// `{"start_time":`
pub open spec fn lit_start_time() -> Seq<u8> {
    seq![0x7b, 0x22, 0x73, 0x74, 0x61, 0x72, 0x74, 0x5f, 0x74, 0x69, 0x6d, 0x65, 0x22, 0x3a]
}

/// `,"app_hash":"`
pub open spec fn lit_app_hash() -> Seq<u8> {
    seq![0x2c, 0x22, 0x61, 0x70, 0x70, 0x5f, 0x68, 0x61, 0x73, 0x68, 0x22, 0x3a, 0x22]
}

/// `","blocks":{`
pub open spec fn lit_blocks() -> Seq<u8> {
    seq![0x22, 0x2c, 0x22, 0x62, 0x6c, 0x6f, 0x63, 0x6b, 0x73, 0x22, 0x3a, 0x7b]
}

/// The member list of the `blocks` object: `"name":blob`, comma-separated.
pub open spec fn spec_ser_blocks(bs: Seq<(Seq<u8>, Seq<u8>)>) -> Seq<u8>
    decreases bs.len(),
{
    if bs.len() == 0 {
        Seq::empty()
    } else {
        let head = seq![0x22u8] + spec_escape(bs[0].0) + seq![0x22u8, 0x3au8] + bs[0].1;
        if bs.len() == 1 {
            head
        } else {
            head + seq![0x2cu8] + spec_ser_blocks(bs.drop_first())
        }
    }
}

/// The exact bytes of `config.json` for a configuration.
pub open spec fn spec_ser_config(c: RunConfigV) -> Seq<u8> {
    lit_start_time() + dec_digits(c.start_time as nat) + lit_app_hash()
        + spec_escape(c.app_hash) + lit_blocks() + spec_ser_blocks(c.blocks)
        + seq![0x7du8, 0x7du8]
}

fn lit_start_time_vec() -> (r: Vec<u8>)
    ensures
        r@ == lit_start_time(),
{
    let mut r: Vec<u8> = Vec::new();
    r.push(0x7b); r.push(0x22); r.push(0x73); r.push(0x74); r.push(0x61); r.push(0x72);
    r.push(0x74); r.push(0x5f); r.push(0x74); r.push(0x69); r.push(0x6d); r.push(0x65);
    r.push(0x22); r.push(0x3a);
    proof {
        assert(r@ =~= lit_start_time());
    }
    r
}

fn lit_app_hash_vec() -> (r: Vec<u8>)
    ensures
        r@ == lit_app_hash(),
{
    let mut r: Vec<u8> = Vec::new();
    r.push(0x2c); r.push(0x22); r.push(0x61); r.push(0x70); r.push(0x70); r.push(0x5f);
    r.push(0x68); r.push(0x61); r.push(0x73); r.push(0x68); r.push(0x22); r.push(0x3a);
    r.push(0x22);
    proof {
        assert(r@ =~= lit_app_hash());
    }
    r
}

fn lit_blocks_vec() -> (r: Vec<u8>)
    ensures
        r@ == lit_blocks(),
{
    let mut r: Vec<u8> = Vec::new();
    r.push(0x22); r.push(0x2c); r.push(0x22); r.push(0x62); r.push(0x6c); r.push(0x6f);
    r.push(0x63); r.push(0x6b); r.push(0x73); r.push(0x22); r.push(0x3a); r.push(0x7b);
    proof {
        assert(r@ =~= lit_blocks());
    }
    r
}

/// Serializes the members of the `blocks` object from entry `i` on.
fn ser_blocks_from(blocks: &Vec<(Vec<u8>, Vec<u8>)>, i: usize, out: &mut Vec<u8>)
    requires
        i <= blocks@.len(),
    ensures
        final(out)@ == old(out)@ + spec_ser_blocks(blocks_view(blocks@).skip(i as int)),
    decreases blocks@.len() - i,
{
    let ghost bv = blocks_view(blocks@);
    if i == blocks.len() {
        proof {
            assert(bv.skip(i as int) =~= Seq::<(Seq<u8>, Seq<u8>)>::empty());
            assert(out@ =~= old(out)@ + spec_ser_blocks(bv.skip(i as int)));
        }
        return;
    }
    out.push(0x22);
    push_escaped(out, &blocks[i].0);
    out.push(0x22);
    out.push(0x3a);
    push_bytes(out, &blocks[i].1);
    proof {
        assert(bv.skip(i as int)[0] == bv[i as int]);
    }
    if i + 1 < blocks.len() {
        out.push(0x2c);
        ser_blocks_from(blocks, i + 1, out);
        proof {
            assert(bv.skip(i as int).drop_first() =~= bv.skip(i as int + 1));
            assert(out@ =~= old(out)@ + spec_ser_blocks(bv.skip(i as int)));
        }
    } else {
        proof {
            assert(bv.skip(i as int).len() == 1);
            assert(out@ =~= old(out)@ + spec_ser_blocks(bv.skip(i as int)));
        }
    }
}

/// Renders a configuration exactly as stored in `config.json`.
pub fn serialize_config(c: &RunConfig) -> (r: Vec<u8>)
    ensures
        r@ == spec_ser_config(c@),
{
    let mut out: Vec<u8> = Vec::new();
    let l1 = lit_start_time_vec();
    push_bytes(&mut out, &l1);
    let mut d = u64_to_dec(c.start_time);
    out.append(&mut d);
    let l2 = lit_app_hash_vec();
    push_bytes(&mut out, &l2);
    push_escaped(&mut out, &c.app_hash);
    let l3 = lit_blocks_vec();
    push_bytes(&mut out, &l3);
    ser_blocks_from(&c.blocks, 0, &mut out);
    out.push(0x7d);
    out.push(0x7d);
    proof {
        assert(blocks_view(c.blocks@).skip(0) =~= blocks_view(c.blocks@));
        assert(out@ =~= spec_ser_config(c@));
    }
    out
}

/// All bytes are decimal digits.
pub open spec fn digits_only(s: Seq<u8>) -> bool {
    forall|i: int| 0 <= i < s.len() ==> is_digit(#[trigger] s[i])
}

/// Parses the member list of the `blocks` object starting at `i`,
/// through the closing `}`.
pub open spec fn spec_parse_blocks(s: Seq<u8>, i: int) -> Option<(Seq<(Seq<u8>, Seq<u8>)>, int)>
    decreases s.len() - i,
{
    if !(0 <= i < s.len()) {
        None
    } else if s[i] != 0x22 {
        None
    } else {
        match spec_scan_str(s, i + 1) {
            None => None,
            Some(q) => {
                if !(i < q && q + 1 < s.len() && s[q + 1] == 0x3a) {
                    None
                } else {
                    match spec_scan_value(s, q + 2) {
                        None => None,
                        Some(e) => {
                            if !(q + 2 < e && e < s.len()) {
                                None
                            } else {
                                let v = s.subrange(q + 2, e);
                                match spec_unescape(s, i + 1, q) {
                                    None => None,
                                    Some(key) => {
                                        if !json_blob_wf(v) {
                                            None
                                        } else if s[e] == 0x7d {
                                            Some((seq![(key, v)], e + 1))
                                        } else if s[e] == 0x2c {
                                            match spec_parse_blocks(s, e + 1) {
                                                None => None,
                                                Some((rest, e2)) => Some(
                                                    (seq![(key, v)] + rest, e2),
                                                ),
                                            }
                                        } else {
                                            None
                                        }
                                    },
                                }
                            }
                        },
                    }
                }
            },
        }
    }
}

/// Parses a whole `config.json`; `None` exactly when the bytes are not
/// a stored configuration.
pub open spec fn spec_parse_config(s: Seq<u8>) -> Option<RunConfigV> {
    let p1 = lit_start_time().len() as int;
    if !(p1 <= s.len() && s.subrange(0, p1) == lit_start_time()) {
        None
    } else {
        let p2 = spec_scan_num(s, p1);
        let ds = s.subrange(p1, p2);
        if !(p2 <= s.len() && ds.len() >= 1 && digits_only(ds) && 0 <= dec_value(ds) <= u64::MAX) {
            None
        } else {
            let p3 = p2 + lit_app_hash().len();
            if !(p3 <= s.len() && s.subrange(p2, p3) == lit_app_hash()) {
                None
            } else {
                match spec_scan_str(s, p3) {
                    None => None,
                    Some(q) => match spec_unescape(s, p3, q) {
                        None => None,
                        Some(hash) => {
                            let p4 = q + lit_blocks().len();
                            if !(p4 <= s.len() && s.subrange(q, p4) == lit_blocks()) {
                                None
                            } else if p4 < s.len() && s[p4] == 0x7d {
                                if s.len() == p4 + 2 && s[p4 + 1] == 0x7d {
                                    Some(RunConfigV {
                                        start_time: dec_value(ds) as u64,
                                        app_hash: hash,
                                        blocks: Seq::empty(),
                                    })
                                } else {
                                    None
                                }
                            } else {
                                match spec_parse_blocks(s, p4) {
                                    None => None,
                                    Some((bs, e)) => {
                                        if e < s.len() && s.len() == e + 1 && s[e] == 0x7d
                                            && names_unique(bs) {
                                            Some(RunConfigV {
                                                start_time: dec_value(ds) as u64,
                                                app_hash: hash,
                                                blocks: bs,
                                            })
                                        } else {
                                            None
                                        }
                                    },
                                }
                            }
                        },
                    },
                }
            }
        }
    }
}

/// Parses the member list of the `blocks` object starting at `i`.
fn parse_blocks(s: &Vec<u8>, i: usize) -> (r: Option<(Vec<(Vec<u8>, Vec<u8>)>, usize)>)
    requires
        i <= s@.len(),
    ensures
        match r {
            Some((bs, e)) => spec_parse_blocks(s@, i as int)
                == Some((blocks_view(bs@), e as int)) && i < e <= s@.len(),
            None => spec_parse_blocks(s@, i as int) is None,
        },
    decreases s@.len() - i,
{
    if i >= s.len() {
        return None;
    }
    if s[i] != 0x22 {
        return None;
    }
    let q = match str_end(s, i + 1) {
        Some(q) => q,
        None => { return None; },
    };
    if !(q + 1 < s.len()) {
        return None;
    }
    if s[q + 1] != 0x3a {
        return None;
    }
    let e = match value_end(s, q + 2) {
        Some(e) => e,
        None => { return None; },
    };
    if !(e < s.len()) {
        return None;
    }
    let key = match unescape_region(s, i + 1, q) {
        Some(x) => x,
        None => { return None; },
    };
    let v = subvec(s, q + 2, e);
    if !json_value_check(&v) {
        return None;
    }
    let ghost kv = key@;
    if s[e] == 0x7d {
        let mut bs: Vec<(Vec<u8>, Vec<u8>)> = Vec::new();
        bs.push((key, v));
        proof {
            assert(blocks_view(bs@) =~= seq![(kv, s@.subrange(q + 2, e as int))]);
        }
        Some((bs, e + 1))
    } else if s[e] == 0x2c {
        match parse_blocks(s, e + 1) {
            None => None,
            Some((rest, e2)) => {
                let ghost rest_view = blocks_view(rest@);
                let mut bs: Vec<(Vec<u8>, Vec<u8>)> = Vec::new();
                bs.push((key, v));
                let mut rest = rest;
                bs.append(&mut rest);
                proof {
                    assert(blocks_view(bs@)
                        =~= seq![(kv, s@.subrange(q + 2, e as int))] + rest_view);
                }
                Some((bs, e2))
            },
        }
    } else {
        None
    }
}

/// Reads a stored `config.json` back; `None` exactly when the bytes
/// are not a stored configuration.
pub fn parse_config(s: &Vec<u8>) -> (r: Option<RunConfig>)
    ensures
        match r {
            Some(c) => spec_parse_config(s@) == Some(c@),
            None => spec_parse_config(s@) is None,
        },
{
    proof {
        assert(s@.len() == s.len());
    }
    let l1 = lit_start_time_vec();
    if !match_at(s, 0, &l1) {
        return None;
    }
    let p1 = l1.len();
    let p2 = num_end(s, p1);
    let ds = subvec(s, p1, p2);
    let t = match dec_to_u64(&ds) {
        Some(v) => v,
        None => { return None; },
    };
    let l2 = lit_app_hash_vec();
    if !match_at(s, p2, &l2) {
        return None;
    }
    let p3 = p2 + l2.len();
    let q = match str_end(s, p3) {
        Some(q) => q,
        None => { return None; },
    };
    let hash = match unescape_region(s, p3, q) {
        Some(x) => x,
        None => { return None; },
    };
    let l3 = lit_blocks_vec();
    if !match_at(s, q, &l3) {
        return None;
    }
    let p4 = q + l3.len();
    if p4 < s.len() && s[p4] == 0x7d {
        if s.len() - p4 == 2 && s[p4 + 1] == 0x7d {
            let c = RunConfig { start_time: t, app_hash: hash, blocks: Vec::new() };
            proof {
                assert(c@.blocks =~= Seq::<(Seq<u8>, Seq<u8>)>::empty());
            }
            Some(c)
        } else {
            None
        }
    } else {
        match parse_blocks(s, p4) {
            None => None,
            Some((bs, e)) => {
                if !(e < s.len() && s.len() - e == 1 && s[e] == 0x7d) {
                    return None;
                }
                if !names_unique_check(&bs) {
                    return None;
                }
                Some(RunConfig { start_time: t, app_hash: hash, blocks: bs })
            },
        }
    }
}

/// Parsing the member list written for a non-empty block list yields
/// exactly that list, ending just past the closing brace.
proof fn lemma_parse_blocks_of_ser(s: Seq<u8>, bs: Seq<(Seq<u8>, Seq<u8>)>, off: int)
    requires
        bs.len() >= 1,
        blocks_wf(bs),
        0 <= off,
        off + spec_ser_blocks(bs).len() < s.len(),
        forall|j: int| 0 <= j < spec_ser_blocks(bs).len()
            ==> s[off + j] == #[trigger] spec_ser_blocks(bs)[j],
        s[off + spec_ser_blocks(bs).len()] == 0x7d,
    ensures
        spec_parse_blocks(s, off) == Some((bs, off + spec_ser_blocks(bs).len() + 1)),
    decreases bs.len(),
{
    let sb = spec_ser_blocks(bs);
    let k = bs[0].0;
    let v = bs[0].1;
    let ek = spec_escape(k);
    let head = seq![0x22u8] + ek + seq![0x22u8, 0x3au8] + v;
    let q = off + 1 + ek.len() as int;
    let ev = q + 2 + v.len() as int;
    // the blob is non-empty, else it could not scan to its own length
    assert(v.len() >= 1);
    // the head (and separator, if any) stand at the start of sb
    assert(forall|j: int| 0 <= j < head.len() ==> sb[j] == #[trigger] head[j]);
    assert(s[off] == sb[0] && sb[0] == 0x22);
    // key: its escaped body, closed by a quote
    assert forall|t: int| 0 <= t < ek.len() implies s[off + 1 + t] == #[trigger] ek[t] by {
        assert(head[1 + t] == ek[t]);
        assert(sb[1 + t] == head[1 + t]);
        assert(s[off + (1 + t)] == sb[1 + t]);
    }
    assert(s[q] == sb[q - off] && sb[q - off] == 0x22);
    lemma_scan_escaped(s, k, off + 1);
    lemma_unescape_escape(s, k, off + 1);
    assert(spec_scan_str(s, off + 1) == Some(q));
    assert(spec_unescape(s, off + 1, q) == Some(k));
    assert(s[q + 1] == sb[q + 1 - off] && sb[q + 1 - off] == 0x3a);
    // blob: embedded verbatim, followed by ',' or '}'
    assert forall|j: int| 0 <= j < v.len() implies s[q + 2 + j] == #[trigger] v[j] by {
        assert(head[1 + ek.len() + 2 + j] == v[j]);
        assert(sb[q + 2 + j - off] == head[q + 2 + j - off]);
        assert(s[off + (q + 2 + j - off)] == sb[q + 2 + j - off]);
    }
    if bs.len() == 1 {
        assert(ev == off + sb.len());
        assert(!is_num_byte(0x7d));
        lemma_embed_value(s, v, q + 2, 0);
        assert(spec_scan_value(s, q + 2) == Some(ev));
        assert(s.subrange(q + 2, ev) =~= v);
        assert((k, v) == bs[0]);
        assert(seq![(k, v)] =~= bs);
    } else {
        assert(s[ev] == sb[ev - off] && sb[ev - off] == 0x2c);
        assert(!is_num_byte(0x2c));
        lemma_embed_value(s, v, q + 2, 0);
        assert(spec_scan_value(s, q + 2) == Some(ev));
        assert(s.subrange(q + 2, ev) =~= v);
        let rest = bs.drop_first();
        let sbr = spec_ser_blocks(rest);
        assert(sb == head + seq![0x2cu8] + sbr);
        assert forall|j: int| 0 <= j < sbr.len() implies s[ev + 1 + j] == #[trigger] sbr[j] by {
            assert(sb[head.len() + 1 + j] == sbr[j]);
            assert(s[off + (head.len() + 1 + j)] == sb[head.len() + 1 + j]);
        }
        assert(ev + 1 + sbr.len() == off + sb.len());
        lemma_parse_blocks_of_ser(s, rest, ev + 1);
        assert((k, v) == bs[0]);
        assert(seq![(k, v)] + rest =~= bs);
    }
}

/// The stored form of a configuration reads back as that same
/// configuration: storing then loading loses nothing.
#[verifier::rlimit(100)]
pub proof fn lemma_config_round_trip(c: RunConfigV)
    requires
        c.wf(),
    ensures
        spec_parse_config(spec_ser_config(c)) == Some(c),
{
    let s = spec_ser_config(c);
    let d = dec_digits(c.start_time as nat);
    let eh = spec_escape(c.app_hash);
    let sb = spec_ser_blocks(c.blocks);
    let p1 = lit_start_time().len() as int;
    let p2 = p1 + d.len() as int;
    let p3 = p2 + lit_app_hash().len() as int;
    let q = p3 + eh.len() as int;
    let p4 = q + lit_blocks().len() as int;
    lemma_dec_digits_shape(c.start_time as nat);
    lemma_dec_value_of_digits(c.start_time as nat);
    assert(s.len() == p4 + sb.len() + 2);
    assert(s.subrange(0, p1) =~= lit_start_time());
    assert(forall|j: int| p1 <= j < p2 ==> s[j] == #[trigger] d[j - p1]);
    assert(s.subrange(p2, p3) =~= lit_app_hash());
    assert(forall|j: int| 0 <= j < eh.len() ==> s[p3 + j] == #[trigger] eh[j]);
    assert(s.subrange(q, p4) =~= lit_blocks());
    assert(forall|j: int| 0 <= j < sb.len() ==> s[p4 + j] == #[trigger] sb[j]);
    assert(s[p4 + sb.len()] == 0x7d);
    assert(s[p4 + sb.len() + 1] == 0x7d);
    // the start time: a digit run stopped by the comma that follows
    assert(forall|j: int| p1 <= j < p2 ==> is_num_byte(#[trigger] s[j]));
    assert(s[p2] == 0x2c && !is_num_byte(0x2c));
    lemma_scan_num_run(s, p1, p2);
    assert(s.subrange(p1, p2) =~= d);
    assert(digits_only(d));
    // the app hash: its escaped body, closed by the quote of the next
    // literal
    assert(s[q] == 0x22);
    lemma_scan_escaped(s, c.app_hash, p3);
    lemma_unescape_escape(s, c.app_hash, p3);
    assert(spec_scan_str(s, p3) == Some(q));
    assert(spec_unescape(s, p3, q) == Some(c.app_hash));
    if c.blocks.len() == 0 {
        assert(sb =~= Seq::<u8>::empty());
        assert(s[p4] == 0x7d && s.len() == p4 + 2 && s[p4 + 1] == 0x7d);
        assert(c.blocks =~= Seq::<(Seq<u8>, Seq<u8>)>::empty());
    } else {
        assert(s[p4] == sb[0] && sb[0] == 0x22);
        lemma_parse_blocks_of_ser(s, c.blocks, p4);
        assert(spec_parse_blocks(s, p4) == Some((c.blocks, p4 + sb.len() + 1)));
    }
    match spec_parse_config(s) {
        Some(r) => {
            assert(r =~= c);
        },
        None => {},
    }
}

/// The first configuration blob stored under `name`, if any.
pub open spec fn spec_block_lookup(bs: Seq<(Seq<u8>, Seq<u8>)>, name: Seq<u8>) -> Option<Seq<u8>>
    decreases bs.len(),
{
    if bs.len() == 0 {
        None
    } else if bs[0].0 == name {
        Some(bs[0].1)
    } else {
        spec_block_lookup(bs.drop_first(), name)
    }
}

impl RunConfig {
    /// Decides a configuration load from what storage reported: the
    /// workspace must be initialized, the run directory must exist
    /// (`NotFound` names the identifier otherwise, and nothing partial
    /// is ever returned), the bytes of `config.json` must have been
    /// read, and they must parse.
    pub fn load(
        run_id: &Vec<u8>,
        runs_dir_exists: bool,
        run_dir_exists: bool,
        data: Option<Vec<u8>>,
    ) -> (r: Result<RunConfig, RunError>)
        ensures
            match r {
                Ok(c) => runs_dir_exists && run_dir_exists
                    && (data matches Some(d) && spec_parse_config(d@) == Some(c@)),
                Err(e) => match e {
                    RunError::WorkspaceUninitialized => !runs_dir_exists,
                    RunError::NotFound(id) => runs_dir_exists && !run_dir_exists
                        && id@ == run_id@,
                    RunError::IOFailure(id) => runs_dir_exists && run_dir_exists
                        && data is None && id@ == run_id@,
                    RunError::MalformedData(id) => runs_dir_exists && run_dir_exists
                        && (data matches Some(d) && spec_parse_config(d@) is None)
                        && id@ == run_id@,
                    _ => false,
                },
            },
    {
        if !runs_dir_exists {
            return Err(RunError::WorkspaceUninitialized);
        }
        if !run_dir_exists {
            return Err(RunError::NotFound(crate::bytes::copy_bytes(run_id)));
        }
        match data {
            None => Err(RunError::IOFailure(crate::bytes::copy_bytes(run_id))),
            Some(d) => match parse_config(&d) {
                Some(c) => Ok(c),
                None => Err(RunError::MalformedData(crate::bytes::copy_bytes(run_id))),
            },
        }
    }

    /// Pure lookup of one block's configuration; an unknown name is
    /// legal and answered with `None`, never an error.
    pub fn config_for_block(&self, name: &Vec<u8>) -> (r: Option<&Vec<u8>>)
        ensures
            match r {
                Some(v) => spec_block_lookup(self@.blocks, name@) == Some(v@),
                None => spec_block_lookup(self@.blocks, name@) is None,
            },
    {
        let ghost bv = self@.blocks;
        proof {
            assert(bv.skip(0) =~= bv);
        }
        let mut i: usize = 0;
        while i < self.blocks.len()
            invariant
                0 <= i <= self.blocks@.len(),
                bv == blocks_view(self.blocks@),
                spec_block_lookup(bv, name@) == spec_block_lookup(bv.skip(i as int), name@),
            decreases self.blocks@.len() - i,
        {
            proof {
                assert(bv.skip(i as int)[0] == bv[i as int]);
                assert(bv.skip(i as int).drop_first() =~= bv.skip(i as int + 1));
            }
            if bytes_eq(&self.blocks[i].0, name) {
                return Some(&self.blocks[i].1);
            }
            i = i + 1;
        }
        proof {
            assert(bv.skip(i as int) =~= Seq::<(Seq<u8>, Seq<u8>)>::empty());
        }
        None
    }
}

} // verus!
