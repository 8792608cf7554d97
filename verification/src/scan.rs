//! A scanner for the stored JSON form.
//!
//! Stored files hold JSON in the compact form this crate itself writes:
//! no whitespace between tokens, strings of raw text bytes and the
//! standard JSON escapes, numbers by JSON's own grammar. The scanner
//! delimits one JSON value inside a byte sequence and is the arbiter
//! of which byte sequences count as well-formed stored values; block
//! configurations travel through the crate as opaque blobs that pass
//! this scanner. The escape codec turns arbitrary byte strings into
//! stored string bodies and back, exactly.

use vstd::prelude::*;
use crate::dec::is_digit;

verus! {

/// Bytes that may appear in a number token.
pub open spec fn is_num_byte(b: u8) -> bool {
    is_digit(b) || b == 0x2b || b == 0x2d || b == 0x2e || b == 0x45 || b == 0x65
}

/// Bytes that may appear raw inside a string: printable, no quote,
/// no backslash. Anything else travels escaped.
pub open spec fn is_text_byte(b: u8) -> bool {
    b >= 0x20 && b != 0x22 && b != 0x5c
}

/// Hexadecimal digit bytes, either case.
pub open spec fn is_hex_byte(b: u8) -> bool {
    is_digit(b) || (0x61 <= b && b <= 0x66) || (0x41 <= b && b <= 0x46)
}

/// The value of one hexadecimal digit byte.
pub open spec fn hex_val(b: u8) -> u8 {
    if is_digit(b) {
        (b - 0x30) as u8
    } else if 0x61 <= b && b <= 0x66 {
        (b - 0x61 + 10) as u8
    } else {
        (b - 0x41 + 10) as u8
    }
}

/// The byte named by a short escape `\c`, if `c` is one of JSON's
/// single-letter escapes.
pub open spec fn short_escape_code(c: u8) -> Option<u8> {
    if c == 0x22 {
        Some(0x22u8)  // \"
    } else if c == 0x5c {
        Some(0x5cu8)  // \\
    } else if c == 0x2f {
        Some(0x2fu8)  // \/
    } else if c == 0x62 {
        Some(0x08u8)  // \b
    } else if c == 0x66 {
        Some(0x0cu8)  // \f
    } else if c == 0x6e {
        Some(0x0au8)  // \n
    } else if c == 0x72 {
        Some(0x0du8)  // \r
    } else if c == 0x74 {
        Some(0x09u8)  // \t
    } else {
        None
    }
}

/// The lowercase hexadecimal digit for a value below sixteen.
pub open spec fn hex_digit(n: u8) -> u8 {
    if n < 10 {
        (n + 0x30) as u8
    } else {
        (n + 0x57) as u8
    }
}

/// The stored spelling of one string byte: raw where the grammar allows
/// it, `\"` and `\\` for quote and backslash, `\u00xx` for control
/// bytes.
pub open spec fn esc_byte(b: u8) -> Seq<u8> {
    if b == 0x22 {
        seq![0x5cu8, 0x22u8]
    } else if b == 0x5c {
        seq![0x5cu8, 0x5cu8]
    } else if b < 0x20 {
        seq![0x5cu8, 0x75u8, 0x30u8, 0x30u8, hex_digit((b / 16) as u8), hex_digit((b % 16) as u8)]
    } else {
        seq![b]
    }
}

/// The stored string body for an arbitrary byte string. Total: every
/// byte string can be stored.
pub open spec fn spec_escape(x: Seq<u8>) -> Seq<u8>
    decreases x.len(),
{
    if x.len() == 0 {
        Seq::empty()
    } else {
        esc_byte(x[0]) + spec_escape(x.drop_first())
    }
}

/// The byte string a stored string body denotes: raw bytes kept, short
/// escapes and `\u00xx` forms decoded. `None` when the region is not a
/// body the codec writes (a lone backslash, a bare control byte, or a
/// `\u` form beyond one byte).
pub open spec fn spec_unescape(s: Seq<u8>, i: int, q: int) -> Option<Seq<u8>>
    decreases q - i,
{
    if i >= q {
        Some(Seq::empty())
    } else if s[i] == 0x5c {
        if i + 1 >= q {
            None
        } else {
            let c = s[i + 1];
            if c == 0x75 {
                if i + 6 <= q && s[i + 2] == 0x30 && s[i + 3] == 0x30 && is_hex_byte(s[i + 4])
                    && is_hex_byte(s[i + 5]) {
                    match spec_unescape(s, i + 6, q) {
                        None => None,
                        Some(r) => Some(
                            seq![(hex_val(s[i + 4]) * 16 + hex_val(s[i + 5])) as u8] + r,
                        ),
                    }
                } else {
                    None
                }
            } else {
                match short_escape_code(c) {
                    None => None,
                    Some(b) => match spec_unescape(s, i + 2, q) {
                        None => None,
                        Some(r) => Some(seq![b] + r),
                    },
                }
            }
        }
    } else if is_text_byte(s[i]) {
        match spec_unescape(s, i + 1, q) {
            None => None,
            Some(r) => Some(seq![s[i]] + r),
        }
    } else {
        None
    }
}

/// End of the maximal run of number bytes starting at `i`.
pub open spec fn spec_scan_num(s: Seq<u8>, i: int) -> int
    decreases s.len() - i,
{
    if 0 <= i < s.len() && is_num_byte(s[i]) {
        spec_scan_num(s, i + 1)
    } else {
        i
    }
}

/// End of the maximal run of decimal digits starting at `i`.
pub open spec fn spec_scan_digits(s: Seq<u8>, i: int) -> int
    decreases s.len() - i,
{
    if 0 <= i < s.len() && is_digit(s[i]) {
        spec_scan_digits(s, i + 1)
    } else {
        i
    }
}

/// End of the fraction part, if any: `.` demands at least one digit.
pub open spec fn spec_scan_frac(s: Seq<u8>, i: int) -> Option<int> {
    if 0 <= i < s.len() && s[i] == 0x2e {
        let d = spec_scan_digits(s, i + 1);
        if d > i + 1 {
            Some(d)
        } else {
            None
        }
    } else {
        Some(i)
    }
}

/// End of the exponent part, if any: `e`/`E`, an optional sign, then
/// at least one digit.
pub open spec fn spec_scan_exp(s: Seq<u8>, i: int) -> Option<int> {
    if 0 <= i < s.len() && (s[i] == 0x65 || s[i] == 0x45) {
        let j = if i + 1 < s.len() && (s[i + 1] == 0x2b || s[i + 1] == 0x2d) {
            i + 2
        } else {
            i + 1
        };
        let d = spec_scan_digits(s, j);
        if d > j {
            Some(d)
        } else {
            None
        }
    } else {
        Some(i)
    }
}

/// End (exclusive) of one JSON number starting at `i`, by JSON's own
/// grammar: optional minus, `0` or a run led by a nonzero digit, then
/// optional fraction and exponent.
pub open spec fn spec_scan_jnum(s: Seq<u8>, i: int) -> Option<int> {
    if !(0 <= i < s.len()) {
        None
    } else {
        let i1 = if s[i] == 0x2d {
            i + 1
        } else {
            i
        };
        if !(i1 < s.len() && is_digit(s[i1])) {
            None
        } else {
            let i2 = if s[i1] == 0x30 {
                i1 + 1
            } else {
                spec_scan_digits(s, i1)
            };
            match spec_scan_frac(s, i2) {
                None => None,
                Some(i3) => spec_scan_exp(s, i3),
            }
        }
    }
}

/// Index of the closing quote of a string whose body starts at `i`:
/// raw text bytes, short escapes, and 4-digit `\u` escapes.
pub open spec fn spec_scan_str(s: Seq<u8>, i: int) -> Option<int>
    decreases s.len() - i,
{
    if !(0 <= i < s.len()) {
        None
    } else if s[i] == 0x22 {
        Some(i)
    } else if s[i] == 0x5c {
        if i + 1 < s.len() {
            if s[i + 1] == 0x75 {
                if i + 5 < s.len() && is_hex_byte(s[i + 2]) && is_hex_byte(s[i + 3])
                    && is_hex_byte(s[i + 4]) && is_hex_byte(s[i + 5]) {
                    spec_scan_str(s, i + 6)
                } else {
                    None
                }
            } else if short_escape_code(s[i + 1]) is Some {
                spec_scan_str(s, i + 2)
            } else {
                None
            }
        } else {
            None
        }
    } else if is_text_byte(s[i]) {
        spec_scan_str(s, i + 1)
    } else {
        None
    }
}

/// End (exclusive) of one JSON value starting at `i`, or `None` if no
/// well-formed value starts there.
pub open spec fn spec_scan_value(s: Seq<u8>, i: int) -> Option<int>
    decreases s.len() - i, 0int,
{
    if !(0 <= i < s.len()) {
        None
    } else if s[i] == 0x6e {  // 'n'
        if i + 3 < s.len() && s[i + 1] == 0x75 && s[i + 2] == 0x6c && s[i + 3] == 0x6c {
            Some(i + 4)  // "null"
        } else {
            None
        }
    } else if s[i] == 0x74 {  // 't'
        if i + 3 < s.len() && s[i + 1] == 0x72 && s[i + 2] == 0x75 && s[i + 3] == 0x65 {
            Some(i + 4)  // "true"
        } else {
            None
        }
    } else if s[i] == 0x66 {  // 'f'
        if i + 4 < s.len() && s[i + 1] == 0x61 && s[i + 2] == 0x6c && s[i + 3] == 0x73
            && s[i + 4] == 0x65 {
            Some(i + 5)  // "false"
        } else {
            None
        }
    } else if s[i] == 0x22 {  // '"'
        match spec_scan_str(s, i + 1) {
            Some(q) => Some(q + 1),
            None => None,
        }
    } else if is_digit(s[i]) || s[i] == 0x2d {  // digit or '-'
        spec_scan_jnum(s, i)
    } else if s[i] == 0x5b {  // '['
        if i + 1 < s.len() && s[i + 1] == 0x5d {
            Some(i + 2)  // "[]"
        } else {
            spec_scan_items(s, i + 1)
        }
    } else if s[i] == 0x7b {  // '{'
        if i + 1 < s.len() && s[i + 1] == 0x7d {
            Some(i + 2)  // "{}"
        } else {
            spec_scan_members(s, i + 1)
        }
    } else {
        None
    }
}

/// One or more comma-separated values then `]`, starting at `i`.
pub open spec fn spec_scan_items(s: Seq<u8>, i: int) -> Option<int>
    decreases s.len() - i, 1int,
{
    if !(0 <= i < s.len()) {
        None
    } else {
        match spec_scan_value(s, i) {
            None => None,
            Some(e) => {
                if !(i < e && e < s.len()) {
                    None
                } else if s[e] == 0x5d {  // ']'
                    Some(e + 1)
                } else if s[e] == 0x2c {  // ','
                    spec_scan_items(s, e + 1)
                } else {
                    None
                }
            },
        }
    }
}

/// One or more `"key":value` members then `}`, starting at `i`.
pub open spec fn spec_scan_members(s: Seq<u8>, i: int) -> Option<int>
    decreases s.len() - i, 1int,
{
    if !(0 <= i < s.len()) {
        None
    } else if s[i] != 0x22 {
        None
    } else {
        match spec_scan_str(s, i + 1) {
            None => None,
            Some(q) => {
                if !(i < q && q + 1 < s.len() && s[q + 1] == 0x3a) {  // ':'
                    None
                } else {
                    match spec_scan_value(s, q + 2) {
                        None => None,
                        Some(e) => {
                            if !(q + 2 < e && e < s.len()) {
                                None
                            } else if s[e] == 0x7d {  // '}'
                                Some(e + 1)
                            } else if s[e] == 0x2c {  // ','
                                spec_scan_members(s, e + 1)
                            } else {
                                None
                            }
                        },
                    }
                }
            },
        }
    }
}

/// The bytes form exactly one JSON value.
pub open spec fn json_blob_wf(b: Seq<u8>) -> bool {
    spec_scan_value(b, 0) == Some(b.len() as int)
}

/// Scanning across a stored (escaped) string body finds the quote
/// that closes it: everything the escape codec writes, the scanner
/// walks.
pub proof fn lemma_scan_escaped(s: Seq<u8>, x: Seq<u8>, i: int)
    requires
        0 <= i,
        i + spec_escape(x).len() < s.len(),
        forall|j: int| 0 <= j < spec_escape(x).len() ==> s[i + j] == #[trigger] spec_escape(x)[j],
        s[i + spec_escape(x).len()] == 0x22,
    ensures
        spec_scan_str(s, i) == Some(i + spec_escape(x).len()),
    decreases x.len(),
{
    let e = spec_escape(x);
    if x.len() == 0 {
        assert(e =~= Seq::<u8>::empty());
    } else {
        let hb = esc_byte(x[0]);
        let rest = spec_escape(x.drop_first());
        assert(e == hb + rest);
        assert forall|j: int| 0 <= j < hb.len() implies s[i + j] == #[trigger] hb[j] by {
            assert(e[j] == hb[j]);
            assert(s[i + j] == e[j]);
        }
        assert forall|j: int| 0 <= j < rest.len() implies s[i + hb.len() + j]
            == #[trigger] rest[j] by {
            assert(e[hb.len() + j] == rest[j]);
            assert(s[i + (hb.len() + j)] == e[hb.len() + j]);
        }
        lemma_scan_escaped(s, x.drop_first(), i + hb.len() as int);
        let b0 = x[0];
        if b0 == 0x22 || b0 == 0x5c {
            assert(s[i] == hb[0] && s[i + 1] == hb[1]);
            assert(short_escape_code(s[i + 1]) is Some);
            assert(spec_scan_str(s, i) == spec_scan_str(s, i + 2));
        } else if b0 < 0x20 {
            assert(s[i] == hb[0] && s[i + 1] == hb[1] && s[i + 2] == hb[2] && s[i + 3] == hb[3]
                && s[i + 4] == hb[4] && s[i + 5] == hb[5]);
            assert(is_hex_byte(hex_digit((b0 / 16) as u8)));
            assert(is_hex_byte(hex_digit((b0 % 16) as u8)));
            assert(spec_scan_str(s, i) == spec_scan_str(s, i + 6));
        } else {
            assert(s[i + 0] == hb[0]);
            assert(hb[0] == b0);
            assert(is_text_byte(b0));
            assert(spec_scan_str(s, i) == spec_scan_str(s, i + 1));
        }
    }
}

/// Decoding the stored body the escape codec wrote yields the original
/// byte string back.
pub proof fn lemma_unescape_escape(s: Seq<u8>, x: Seq<u8>, i: int)
    requires
        0 <= i,
        i + spec_escape(x).len() <= s.len(),
        forall|j: int| 0 <= j < spec_escape(x).len() ==> s[i + j] == #[trigger] spec_escape(x)[j],
    ensures
        spec_unescape(s, i, i + spec_escape(x).len()) == Some(x),
    decreases x.len(),
{
    let e = spec_escape(x);
    if x.len() == 0 {
        assert(e =~= Seq::<u8>::empty());
        assert(x =~= Seq::<u8>::empty());
    } else {
        let b = x[0];
        let hb = esc_byte(b);
        let rest = spec_escape(x.drop_first());
        assert(e == hb + rest);
        assert forall|j: int| 0 <= j < hb.len() implies s[i + j] == #[trigger] hb[j] by {
            assert(e[j] == hb[j]);
            assert(s[i + j] == e[j]);
        }
        assert forall|j: int| 0 <= j < rest.len() implies s[i + hb.len() + j]
            == #[trigger] rest[j] by {
            assert(e[hb.len() + j] == rest[j]);
            assert(s[i + (hb.len() + j)] == e[hb.len() + j]);
        }
        lemma_unescape_escape(s, x.drop_first(), i + hb.len() as int);
        if !(b == 0x22 || b == 0x5c) && b < 0x20 {
            assert(hex_val(hex_digit((b / 16) as u8)) == b / 16);
            assert(hex_val(hex_digit((b % 16) as u8)) == b % 16);
        }
        assert(seq![b] + x.drop_first() =~= x);
    }
}

/// Computes the stored lowercase hexadecimal digit.
fn hexd(n: u8) -> (r: u8)
    requires
        n < 16,
    ensures
        r == hex_digit(n),
{
    if n < 10 {
        n + 0x30
    } else {
        n + 0x57
    }
}

/// Exact test for a hexadecimal digit byte.
fn hex_byte(b: u8) -> (r: bool)
    ensures
        r == is_hex_byte(b),
{
    (0x30 <= b && b <= 0x39) || (0x61 <= b && b <= 0x66) || (0x41 <= b && b <= 0x46)
}

/// The byte a short escape letter names, if it is one.
fn short_unescape(c: u8) -> (r: Option<u8>)
    ensures
        r == short_escape_code(c),
{
    if c == 0x22 {
        Some(0x22)
    } else if c == 0x5c {
        Some(0x5c)
    } else if c == 0x2f {
        Some(0x2f)
    } else if c == 0x62 {
        Some(0x08)
    } else if c == 0x66 {
        Some(0x0c)
    } else if c == 0x6e {
        Some(0x0a)
    } else if c == 0x72 {
        Some(0x0d)
    } else if c == 0x74 {
        Some(0x09)
    } else {
        None
    }
}

/// Appending one byte to the source appends its spelling to the body.
pub proof fn lemma_escape_snoc(x: Seq<u8>, b: u8)
    ensures
        spec_escape(x.push(b)) == spec_escape(x) + esc_byte(b),
    decreases x.len(),
{
    if x.len() == 0 {
        assert(x.push(b).drop_first() =~= Seq::<u8>::empty());
        assert(x =~= Seq::<u8>::empty());
        assert(x.push(b)[0] == b);
        assert(spec_escape(x.push(b)) =~= esc_byte(b) + spec_escape(Seq::<u8>::empty()));
        assert(esc_byte(b) + Seq::<u8>::empty() =~= esc_byte(b));
        assert(Seq::<u8>::empty() + esc_byte(b) =~= esc_byte(b));
    } else {
        lemma_escape_snoc(x.drop_first(), b);
        assert(x.push(b).drop_first() =~= x.drop_first().push(b));
        assert(x.push(b)[0] == x[0]);
        assert(esc_byte(x[0]) + (spec_escape(x.drop_first()) + esc_byte(b))
            =~= (esc_byte(x[0]) + spec_escape(x.drop_first())) + esc_byte(b));
    }
}

/// Writes the stored string body for `xs`: any byte string at all.
pub fn push_escaped(out: &mut Vec<u8>, xs: &Vec<u8>)
    ensures
        final(out)@ == old(out)@ + spec_escape(xs@),
{
    proof {
        assert(out@ =~= old(out)@ + spec_escape(xs@.take(0)));
    }
    let mut i: usize = 0;
    while i < xs.len()
        invariant
            0 <= i <= xs@.len(),
            out@ == old(out)@ + spec_escape(xs@.take(i as int)),
        decreases xs@.len() - i,
    {
        let b = xs[i];
        let ghost pre = out@;
        if b == 0x22 {
            out.push(0x5c);
            out.push(0x22);
        } else if b == 0x5c {
            out.push(0x5c);
            out.push(0x5c);
        } else if b < 0x20 {
            out.push(0x5c);
            out.push(0x75);
            out.push(0x30);
            out.push(0x30);
            out.push(hexd(b / 16));
            out.push(hexd(b % 16));
        } else {
            out.push(b);
        }
        proof {
            assert(out@ =~= pre + esc_byte(xs@[i as int]));
            lemma_escape_snoc(xs@.take(i as int), xs@[i as int]);
            assert(xs@.take(i + 1) =~= xs@.take(i as int).push(xs@[i as int]));
            assert(out@ =~= old(out)@ + spec_escape(xs@.take(i + 1)));
        }
        i = i + 1;
    }
    proof {
        assert(xs@.take(xs@.len() as int) =~= xs@);
    }
}

/// Decodes the stored string body between `i` and `q`; `None` exactly
/// when the region is not a body the codec writes.
pub fn unescape_region(s: &Vec<u8>, i: usize, q: usize) -> (r: Option<Vec<u8>>)
    requires
        i <= q <= s@.len(),
    ensures
        match r {
            Some(x) => spec_unescape(s@, i as int, q as int) == Some(x@),
            None => spec_unescape(s@, i as int, q as int) is None,
        },
{
    let mut acc: Vec<u8> = Vec::new();
    let mut k = i;
    while k < q
        invariant
            i <= k <= q <= s@.len(),
            s@.len() == s.len(),
            spec_unescape(s@, i as int, q as int) == (match spec_unescape(
                s@,
                k as int,
                q as int,
            ) {
                Some(r) => Some(acc@ + r),
                None => None::<Seq<u8>>,
            }),
        decreases q - k,
    {
        let ghost k0 = k as int;
        let ghost pre = acc@;
        let b = s[k];
        let v: u8;
        if b == 0x5c {
            if q - k < 2 {
                return None;
            }
            let c = s[k + 1];
            if c == 0x75 {
                if q - k < 6 {
                    return None;
                }
                if s[k + 2] != 0x30 || s[k + 3] != 0x30 {
                    return None;
                }
                if !(hex_byte(s[k + 4]) && hex_byte(s[k + 5])) {
                    return None;
                }
                let hi = s[k + 4];
                let lo = s[k + 5];
                let h: u8 = if hi <= 0x39 {
                    hi - 0x30
                } else if hi <= 0x46 {
                    hi - 0x41 + 10
                } else {
                    hi - 0x61 + 10
                };
                let l: u8 = if lo <= 0x39 {
                    lo - 0x30
                } else if lo <= 0x46 {
                    lo - 0x41 + 10
                } else {
                    lo - 0x61 + 10
                };
                proof {
                    assert(h == hex_val(s@[k0 + 4]) && h < 16);
                    assert(l == hex_val(s@[k0 + 5]) && l < 16);
                }
                v = h * 16 + l;
                k = k + 6;
            } else {
                match short_unescape(c) {
                    Some(x) => {
                        v = x;
                        k = k + 2;
                    },
                    None => {
                        return None;
                    },
                }
            }
        } else if b >= 0x20 && b != 0x22 && b != 0x5c {
            v = b;
            k = k + 1;
        } else {
            return None;
        }
        acc.push(v);
        proof {
            match spec_unescape(s@, k as int, q as int) {
                Some(r) => {
                    assert(spec_unescape(s@, k0, q as int) == Some(seq![v] + r));
                    assert(pre + (seq![v] + r) =~= acc@ + r);
                },
                None => {
                    assert(spec_unescape(s@, k0, q as int) is None);
                },
            }
        }
    }
    proof {
        assert(acc@ + Seq::<u8>::empty() =~= acc@);
    }
    Some(acc)
}

/// Scanning a number across a known maximal run ends where the run ends.
pub proof fn lemma_scan_num_run(s: Seq<u8>, i: int, e: int)
    requires
        0 <= i <= e <= s.len(),
        forall|j: int| i <= j < e ==> is_num_byte(#[trigger] s[j]),
        e == s.len() || !is_num_byte(s[e]),
    ensures
        spec_scan_num(s, i) == e,
    decreases e - i,
{
    if i < e {
        lemma_scan_num_run(s, i + 1, e);
    }
}

/// A found closing quote lies within bounds at a quote byte.
pub proof fn lemma_scan_str_bounds(s: Seq<u8>, i: int)
    requires
        0 <= i,
    ensures
        spec_scan_str(s, i) matches Some(q) ==> i <= q < s.len() && s[q] == 0x22,
    decreases s.len() - i,
{
    if 0 <= i < s.len() && s[i] != 0x22 {
        if s[i] == 0x5c {
            if i + 1 < s.len() {
                if s[i + 1] == 0x75 {
                    if i + 5 < s.len() {
                        lemma_scan_str_bounds(s, i + 6);
                    }
                } else {
                    lemma_scan_str_bounds(s, i + 2);
                }
            }
        } else if is_text_byte(s[i]) {
            lemma_scan_str_bounds(s, i + 1);
        }
    }
}

/// A digit run ends within bounds, on a non-digit byte.
pub proof fn lemma_scan_digits_bounds(s: Seq<u8>, i: int)
    requires
        0 <= i <= s.len(),
    ensures
        i <= spec_scan_digits(s, i) <= s.len(),
        spec_scan_digits(s, i) == s.len() || !is_digit(s[spec_scan_digits(s, i)]),
    decreases s.len() - i,
{
    if i < s.len() && is_digit(s[i]) {
        lemma_scan_digits_bounds(s, i + 1);
    }
}

/// Digit runs scan the same inside an embedding, provided the byte
/// after the blob (if any) cannot extend a number.
proof fn lemma_embed_digits(s: Seq<u8>, b: Seq<u8>, off: int, k: int)
    requires
        0 <= off,
        off + b.len() <= s.len(),
        forall|j: int| 0 <= j < b.len() ==> s[off + j] == #[trigger] b[j],
        off + b.len() == s.len() || !is_num_byte(s[off + b.len()]),
        0 <= k <= b.len(),
    ensures
        spec_scan_digits(s, off + k) == off + spec_scan_digits(b, k),
    decreases b.len() - k,
{
    if k < b.len() && is_digit(b[k]) {
        lemma_embed_digits(s, b, off, k + 1);
    }
}

/// JSON numbers scan the same inside an embedding, provided the byte
/// after the blob (if any) cannot extend a number.
proof fn lemma_embed_jnum(s: Seq<u8>, b: Seq<u8>, off: int, k: int)
    requires
        0 <= off,
        off + b.len() <= s.len(),
        forall|j: int| 0 <= j < b.len() ==> s[off + j] == #[trigger] b[j],
        off + b.len() == s.len() || !is_num_byte(s[off + b.len()]),
        0 <= k <= b.len(),
    ensures
        spec_scan_jnum(b, k) matches Some(m) ==> spec_scan_jnum(s, off + k) == Some(off + m),
{
    match spec_scan_jnum(b, k) {
        None => {},
        Some(m) => {
            let k1 = if b[k] == 0x2d {
                k + 1
            } else {
                k
            };
            assert(s[off + k] == b[k]);
            assert(s[off + k1] == b[k1]);
            let k2 = if b[k1] == 0x30 {
                k1 + 1
            } else {
                spec_scan_digits(b, k1)
            };
            lemma_embed_digits(s, b, off, k1);
            lemma_scan_digits_bounds(b, k1);
            assert(k2 <= b.len());
            // fraction: same branch both sides
            if k2 < b.len() && b[k2] == 0x2e {
                assert(s[off + k2] == b[k2]);
                lemma_embed_digits(s, b, off, k2 + 1);
                lemma_scan_digits_bounds(b, k2 + 1);
            } else {
                if k2 < b.len() {
                    assert(s[off + k2] == b[k2]);
                }
            }
            match spec_scan_frac(b, k2) {
                None => {},
                Some(k3) => {
                    assert(spec_scan_frac(s, off + k2) == Some(off + k3));
                    assert(k3 <= b.len());
                    // exponent: same branch both sides
                    if k3 < b.len() && (b[k3] == 0x65 || b[k3] == 0x45) {
                        assert(s[off + k3] == b[k3]);
                        if k3 + 1 < b.len() {
                            assert(s[off + (k3 + 1)] == b[k3 + 1]);
                        }
                        let j = if k3 + 1 < b.len() && (b[k3 + 1] == 0x2b || b[k3 + 1] == 0x2d) {
                            k3 + 2
                        } else {
                            k3 + 1
                        };
                        if j <= b.len() {
                            lemma_embed_digits(s, b, off, j);
                            lemma_scan_digits_bounds(b, j);
                        }
                        if j == b.len() + 1 {
                            // only when the sign fell at the very end;
                            // then no digit can follow and the scan of
                            // `b` gave `None`, contradicting `Some`
                            assert(spec_scan_digits(b, j) == j);
                        }
                    } else {
                        if k3 < b.len() {
                            assert(s[off + k3] == b[k3]);
                        }
                        assert(spec_scan_exp(b, k3) == Some(k3));
                        assert(spec_scan_exp(s, off + k3) == Some(off + k3));
                    }
                },
            }
        },
    }
}

/// String bodies scan the same inside an embedding.
proof fn lemma_embed_str(s: Seq<u8>, b: Seq<u8>, off: int, k: int)
    requires
        0 <= off,
        off + b.len() <= s.len(),
        forall|j: int| 0 <= j < b.len() ==> s[off + j] == #[trigger] b[j],
        0 <= k <= b.len(),
    ensures
        spec_scan_str(b, k) matches Some(q) ==> spec_scan_str(s, off + k) == Some(off + q),
    decreases b.len() - k,
{
    if k < b.len() && b[k] != 0x22 {
        if b[k] == 0x5c {
            if k + 1 < b.len() {
                if b[k + 1] == 0x75 {
                    if k + 5 < b.len() {
                        lemma_embed_str(s, b, off, k + 6);
                    }
                } else {
                    lemma_embed_str(s, b, off, k + 2);
                }
            }
        } else if is_text_byte(b[k]) {
            lemma_embed_str(s, b, off, k + 1);
        }
    }
}

/// A value that scans to an end inside a blob scans to the translated
/// end when the blob sits inside a larger sequence. This is what lets
/// stored objects embed opaque configuration blobs verbatim.
pub proof fn lemma_embed_value(s: Seq<u8>, b: Seq<u8>, off: int, k: int)
    requires
        0 <= off,
        off + b.len() <= s.len(),
        forall|j: int| 0 <= j < b.len() ==> s[off + j] == #[trigger] b[j],
        off + b.len() == s.len() || !is_num_byte(s[off + b.len()]),
        0 <= k <= b.len(),
    ensures
        spec_scan_value(b, k) matches Some(e) ==> spec_scan_value(s, off + k) == Some(off + e),
    decreases b.len() - k, 0int,
{
    match spec_scan_value(b, k) {
        None => {},
        Some(e) => {
            let c = b[k];
            if c == 0x22 {
                lemma_embed_str(s, b, off, k + 1);
            } else if is_digit(c) || c == 0x2d {
                lemma_embed_jnum(s, b, off, k);
            } else if c == 0x5b {
                if !(k + 1 < b.len() && b[k + 1] == 0x5d) {
                    if k + 1 <= b.len() {
                        lemma_embed_items(s, b, off, k + 1);
                    }
                }
            } else if c == 0x7b {
                if !(k + 1 < b.len() && b[k + 1] == 0x7d) {
                    if k + 1 <= b.len() {
                        lemma_embed_members(s, b, off, k + 1);
                    }
                }
            }
        },
    }
}

/// Item lists scan the same inside an embedding.
proof fn lemma_embed_items(s: Seq<u8>, b: Seq<u8>, off: int, k: int)
    requires
        0 <= off,
        off + b.len() <= s.len(),
        forall|j: int| 0 <= j < b.len() ==> s[off + j] == #[trigger] b[j],
        off + b.len() == s.len() || !is_num_byte(s[off + b.len()]),
        0 <= k <= b.len(),
    ensures
        spec_scan_items(b, k) matches Some(e) ==> spec_scan_items(s, off + k) == Some(off + e),
    decreases b.len() - k, 1int,
{
    if k < b.len() {
        lemma_embed_value(s, b, off, k);
        match spec_scan_items(b, k) {
            None => {},
            Some(r) => {
                match spec_scan_value(b, k) {
                    None => {},
                    Some(e) => {
                        if k < e && e < b.len() && b[e] == 0x2c {
                            lemma_embed_items(s, b, off, e + 1);
                        }
                    },
                }
            },
        }
    }
}

/// Member lists scan the same inside an embedding.
proof fn lemma_embed_members(s: Seq<u8>, b: Seq<u8>, off: int, k: int)
    requires
        0 <= off,
        off + b.len() <= s.len(),
        forall|j: int| 0 <= j < b.len() ==> s[off + j] == #[trigger] b[j],
        off + b.len() == s.len() || !is_num_byte(s[off + b.len()]),
        0 <= k <= b.len(),
    ensures
        spec_scan_members(b, k) matches Some(e) ==> spec_scan_members(s, off + k) == Some(off + e),
    decreases b.len() - k, 1int,
{
    if k < b.len() && b[k] == 0x22 {
        lemma_embed_str(s, b, off, k + 1);
        match spec_scan_str(b, k + 1) {
            None => {},
            Some(q) => {
                lemma_scan_str_bounds(b, k + 1);
                if k < q && q + 1 < b.len() && b[q + 1] == 0x3a {
                    lemma_embed_value(s, b, off, q + 2);
                    match spec_scan_value(b, q + 2) {
                        None => {},
                        Some(e) => {
                            if q + 2 < e && e < b.len() && b[e] == 0x2c {
                                lemma_embed_members(s, b, off, e + 1);
                            }
                        },
                    }
                }
            },
        }
    }
}

/// Exact test for a number byte.
pub fn num_byte(b: u8) -> (r: bool)
    ensures
        r == is_num_byte(b),
{
    (0x30 <= b && b <= 0x39) || b == 0x2b || b == 0x2d || b == 0x2e || b == 0x45 || b == 0x65
}

/// Exact test for a plain text byte.
pub fn text_byte(b: u8) -> (r: bool)
    ensures
        r == is_text_byte(b),
{
    b >= 0x20 && b != 0x22 && b != 0x5c
}

/// End of the digit run starting at `i`.
fn digits_end(s: &Vec<u8>, i: usize) -> (r: usize)
    requires
        i <= s@.len(),
    ensures
        r == spec_scan_digits(s@, i as int),
        i <= r <= s@.len(),
{
    let mut j = i;
    while j < s.len() && 0x30 <= s[j] && s[j] <= 0x39
        invariant
            i <= j <= s@.len(),
            spec_scan_digits(s@, i as int) == spec_scan_digits(s@, j as int),
        decreases s@.len() - j,
    {
        j = j + 1;
    }
    j
}

/// End (exclusive) of the JSON number starting at `i`.
fn jnum_end(s: &Vec<u8>, i: usize) -> (r: Option<usize>)
    requires
        i < s@.len(),
    ensures
        match r {
            Some(e) => spec_scan_jnum(s@, i as int) == Some(e as int) && i < e <= s@.len(),
            None => spec_scan_jnum(s@, i as int) is None,
        },
{
    proof {
        assert(s@.len() == s.len());
    }
    let i1 = if s[i] == 0x2d {
        i + 1
    } else {
        i
    };
    if !(i1 < s.len()) {
        return None;
    }
    let b1 = s[i1];
    if !(0x30 <= b1 && b1 <= 0x39) {
        return None;
    }
    let i2 = if b1 == 0x30 {
        i1 + 1
    } else {
        digits_end(s, i1)
    };
    proof {
        if b1 != 0x30 {
            lemma_scan_digits_bounds(s@, i1 + 1);
            assert(spec_scan_digits(s@, i1 as int) == spec_scan_digits(s@, i1 + 1));
        }
    }
    let i3 = if i2 < s.len() && s[i2] == 0x2e {
        let d = digits_end(s, i2 + 1);
        if d > i2 + 1 {
            d
        } else {
            return None;
        }
    } else {
        i2
    };
    if i3 < s.len() && (s[i3] == 0x65 || s[i3] == 0x45) {
        let j = if i3 + 1 < s.len() && (s[i3 + 1] == 0x2b || s[i3 + 1] == 0x2d) {
            i3 + 2
        } else {
            i3 + 1
        };
        let d = digits_end(s, j);
        if d > j {
            Some(d)
        } else {
            None
        }
    } else {
        Some(i3)
    }
}

/// End of the number run starting at `i`.
pub fn num_end(s: &Vec<u8>, i: usize) -> (r: usize)
    requires
        i <= s@.len(),
    ensures
        r == spec_scan_num(s@, i as int),
        i <= r <= s@.len(),
{
    let mut j = i;
    while j < s.len() && num_byte(s[j])
        invariant
            i <= j <= s@.len(),
            spec_scan_num(s@, i as int) == spec_scan_num(s@, j as int),
        decreases s@.len() - j,
    {
        j = j + 1;
    }
    j
}

/// Closing quote of the string body starting at `i`.
pub fn str_end(s: &Vec<u8>, i: usize) -> (r: Option<usize>)
    requires
        i <= s@.len(),
    ensures
        match r {
            Some(q) => spec_scan_str(s@, i as int) == Some(q as int) && i <= q < s@.len(),
            None => spec_scan_str(s@, i as int) is None,
        },
{
    let mut j = i;
    while j < s.len()
        invariant
            i <= j <= s@.len(),
            s@.len() == s.len(),
            spec_scan_str(s@, i as int) == spec_scan_str(s@, j as int),
        decreases s@.len() - j,
    {
        let b = s[j];
        if b == 0x22 {
            return Some(j);
        }
        if b == 0x5c {
            if s.len() - j < 2 {
                return None;
            }
            let c = s[j + 1];
            if c == 0x75 {
                if s.len() - j < 6 {
                    return None;
                }
                if hex_byte(s[j + 2]) && hex_byte(s[j + 3]) && hex_byte(s[j + 4])
                    && hex_byte(s[j + 5]) {
                    j = j + 6;
                } else {
                    return None;
                }
            } else if short_unescape(c).is_some() {
                j = j + 2;
            } else {
                return None;
            }
        } else if text_byte(b) {
            j = j + 1;
        } else {
            return None;
        }
    }
    None
}

/// End (exclusive) of the JSON value starting at `i`.
pub fn value_end(s: &Vec<u8>, i: usize) -> (r: Option<usize>)
    requires
        i <= s@.len(),
    ensures
        match r {
            Some(e) => spec_scan_value(s@, i as int) == Some(e as int) && i < e <= s@.len(),
            None => spec_scan_value(s@, i as int) is None,
        },
    decreases s@.len() - i, 0int,
{
    if i >= s.len() {
        return None;
    }
    let b = s[i];
    if b == 0x6e {
        if s.len() - i > 3 && s[i + 1] == 0x75 && s[i + 2] == 0x6c && s[i + 3] == 0x6c {
            Some(i + 4)
        } else {
            None
        }
    } else if b == 0x74 {
        if s.len() - i > 3 && s[i + 1] == 0x72 && s[i + 2] == 0x75 && s[i + 3] == 0x65 {
            Some(i + 4)
        } else {
            None
        }
    } else if b == 0x66 {
        if s.len() - i > 4 && s[i + 1] == 0x61 && s[i + 2] == 0x6c && s[i + 3] == 0x73
            && s[i + 4] == 0x65 {
            Some(i + 5)
        } else {
            None
        }
    } else if b == 0x22 {
        match str_end(s, i + 1) {
            Some(q) => Some(q + 1),
            None => None,
        }
    } else if (0x30 <= b && b <= 0x39) || b == 0x2d {
        jnum_end(s, i)
    } else if b == 0x5b {
        if s.len() - i > 1 && s[i + 1] == 0x5d {
            Some(i + 2)
        } else {
            items_end(s, i + 1)
        }
    } else if b == 0x7b {
        if s.len() - i > 1 && s[i + 1] == 0x7d {
            Some(i + 2)
        } else {
            members_end(s, i + 1)
        }
    } else {
        None
    }
}

/// End of a bracketed item list whose first value starts at `i`.
fn items_end(s: &Vec<u8>, i: usize) -> (r: Option<usize>)
    requires
        i <= s@.len(),
    ensures
        match r {
            Some(e) => spec_scan_items(s@, i as int) == Some(e as int) && i < e <= s@.len(),
            None => spec_scan_items(s@, i as int) is None,
        },
    decreases s@.len() - i, 1int,
{
    if i >= s.len() {
        return None;
    }
    match value_end(s, i) {
        None => None,
        Some(e) => {
            if e >= s.len() {
                return None;
            }
            let c = s[e];
            if c == 0x5d {
                Some(e + 1)
            } else if c == 0x2c {
                items_end(s, e + 1)
            } else {
                None
            }
        },
    }
}

/// End of a braced member list whose first key starts at `i`.
fn members_end(s: &Vec<u8>, i: usize) -> (r: Option<usize>)
    requires
        i <= s@.len(),
    ensures
        match r {
            Some(e) => spec_scan_members(s@, i as int) == Some(e as int) && i < e <= s@.len(),
            None => spec_scan_members(s@, i as int) is None,
        },
    decreases s@.len() - i, 1int,
{
    if i >= s.len() {
        return None;
    }
    if s[i] != 0x22 {
        return None;
    }
    match str_end(s, i + 1) {
        None => None,
        Some(q) => {
            if !(q + 1 < s.len()) {
                return None;
            }
            if s[q + 1] != 0x3a {
                return None;
            }
            match value_end(s, q + 2) {
                None => None,
                Some(e) => {
                    if e >= s.len() {
                        None
                    } else if s[e] == 0x7d {
                        Some(e + 1)
                    } else if s[e] == 0x2c {
                        members_end(s, e + 1)
                    } else {
                        None
                    }
                },
            }
        },
    }
}

/// True exactly when the bytes form one whole JSON value: the shape
/// every stored configuration blob must have.
pub fn json_value_check(b: &Vec<u8>) -> (r: bool)
    ensures
        r == json_blob_wf(b@),
{
    match value_end(b, 0) {
        Some(e) => e == b.len(),
        None => false,
    }
}

} // verus!
