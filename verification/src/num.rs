//! Numeric header fields: octal ASCII and base-256 binary encodings.
//!
//! A tar header stores numbers as NUL/space-terminated octal ASCII text,
//! except that a value too large for its field may be stored in base-256
//! binary form, flagged by a set high bit in the field's first byte.
//! PAX extension records additionally use decimal ASCII.

#![verifier::loop_isolation(false)]

use vstd::arithmetic::div_mod::lemma_div_denominator;
use vstd::arithmetic::div_mod::lemma_fundamental_div_mod;
use vstd::arithmetic::div_mod::lemma_multiply_divide_lt;
use vstd::prelude::*;

verus! {

// ---------------------------------------------------------------------------
// Byte classes and runs
// ---------------------------------------------------------------------------

/// Classes of bytes that field parsing scans over.
#[derive(Clone, Copy, PartialEq, Eq, Structural)]
pub enum ByteClass {
    Space,
    OctalDigit,
    DecDigit,
    NonNul,
    NotEq,
    NotSlash,
}

pub open spec fn in_class(c: ByteClass, b: u8) -> bool {
    match c {
        ByteClass::Space => b == 0x20,
        ByteClass::OctalDigit => 0x30 <= b && b <= 0x37,
        ByteClass::DecDigit => 0x30 <= b && b <= 0x39,
        ByteClass::NonNul => b != 0,
        ByteClass::NotEq => b != 0x3d,
        ByteClass::NotSlash => b != 0x2f,
    }
}

/// Length of the longest prefix of `s` whose bytes all lie in class `c`.
pub open spec fn run_len(c: ByteClass, s: Seq<u8>) -> nat
    decreases s.len(),
{
    if s.len() > 0 && in_class(c, s[0]) {
        1 + run_len(c, s.skip(1))
    } else {
        0
    }
}

/// A run length is determined by a prefix of class bytes followed by a
/// non-class byte (or the end of the sequence).
pub proof fn lemma_run_len_is(c: ByteClass, s: Seq<u8>, i: int)
    requires
        0 <= i <= s.len(),
        forall|k: int| 0 <= k < i ==> in_class(c, s[k]),
        i < s.len() ==> !in_class(c, s[i]),
    ensures
        run_len(c, s) == i,
    decreases i,
{
    if i == 0 {
        if s.len() > 0 {
            assert(!in_class(c, s[0]));
        }
    } else {
        assert(in_class(c, s[0]));
        let t = s.skip(1);
        assert forall|k: int| 0 <= k < i - 1 implies in_class(c, t[k]) by {
            assert(t[k] == s[k + 1]);
        }
        if i - 1 < t.len() {
            assert(t[i - 1] == s[i]);
        }
        lemma_run_len_is(c, t, i - 1);
    }
}

/// Basic facts about a run: it is a prefix of class bytes, and the byte
/// right after it (if any) is not in the class.
pub proof fn lemma_run_len_props(c: ByteClass, s: Seq<u8>)
    ensures
        run_len(c, s) <= s.len(),
        forall|k: int| 0 <= k < run_len(c, s) ==> in_class(c, s[k]),
        run_len(c, s) < s.len() ==> !in_class(c, s[run_len(c, s) as int]),
    decreases s.len(),
{
    if s.len() > 0 && in_class(c, s[0]) {
        let t = s.skip(1);
        lemma_run_len_props(c, t);
        assert forall|k: int| 0 <= k < run_len(c, s) implies in_class(c, s[k]) by {
            if k > 0 {
                assert(t[k - 1] == s[k]);
            }
        }
        if run_len(c, s) < s.len() {
            assert(t[run_len(c, t) as int] == s[run_len(c, s) as int]);
        }
    }
}

// ---------------------------------------------------------------------------
// Digit values and place-value sums
// ---------------------------------------------------------------------------

pub open spec fn odigit_val(b: u8) -> nat {
    if in_class(ByteClass::OctalDigit, b) {
        (b - 0x30) as nat
    } else {
        0
    }
}

pub open spec fn ddigit_val(b: u8) -> nat {
    if in_class(ByteClass::DecDigit, b) {
        (b - 0x30) as nat
    } else {
        0
    }
}

/// Value of a big-endian octal digit string.
pub open spec fn octal_value(s: Seq<u8>) -> nat
    decreases s.len(),
{
    if s.len() == 0 {
        0
    } else {
        octal_value(s.drop_last()) * 8 + odigit_val(s.last())
    }
}

/// Value of a big-endian decimal digit string.
pub open spec fn dec_value(s: Seq<u8>) -> nat
    decreases s.len(),
{
    if s.len() == 0 {
        0
    } else {
        dec_value(s.drop_last()) * 10 + ddigit_val(s.last())
    }
}

/// Value of a big-endian base-256 byte string.
pub open spec fn base256_value(s: Seq<u8>) -> nat
    decreases s.len(),
{
    if s.len() == 0 {
        0
    } else {
        base256_value(s.drop_last()) * 256 + s.last() as nat
    }
}

pub open spec fn pow8(n: nat) -> nat
    decreases n,
{
    if n == 0 {
        1
    } else {
        8 * pow8((n - 1) as nat)
    }
}

pub open spec fn pow256(n: nat) -> nat
    decreases n,
{
    if n == 0 {
        1
    } else {
        256 * pow256((n - 1) as nat)
    }
}

pub proof fn lemma_pow8_pos(n: nat)
    ensures
        pow8(n) >= 1,
    decreases n,
{
    if n > 0 {
        lemma_pow8_pos((n - 1) as nat);
    }
}

pub proof fn lemma_pow8_mono(m: nat, n: nat)
    requires
        m <= n,
    ensures
        pow8(m) <= pow8(n),
    decreases n,
{
    if m < n {
        lemma_pow8_mono(m, (n - 1) as nat);
        lemma_pow8_pos((n - 1) as nat);
    }
}

pub proof fn lemma_pow256_pos(n: nat)
    ensures
        pow256(n) >= 1,
    decreases n,
{
    if n > 0 {
        lemma_pow256_pos((n - 1) as nat);
    }
}

pub proof fn lemma_octal_value_bound(s: Seq<u8>)
    ensures
        octal_value(s) < pow8(s.len()),
    decreases s.len(),
{
    if s.len() > 0 {
        lemma_octal_value_bound(s.drop_last());
    }
}

pub proof fn lemma_base256_value_bound(s: Seq<u8>)
    ensures
        base256_value(s) < pow256(s.len()),
    decreases s.len(),
{
    if s.len() > 0 {
        lemma_base256_value_bound(s.drop_last());
    }
}

/// The value of a decimal digit string is at least the value of any prefix.
pub proof fn lemma_dec_value_take(s: Seq<u8>, i: int)
    requires
        0 <= i <= s.len(),
    ensures
        dec_value(s.take(i)) <= dec_value(s),
    decreases s.len(),
{
    if i == s.len() {
        assert(s.take(i) =~= s);
    } else {
        let d = s.drop_last();
        assert(d.take(i) =~= s.take(i));
        lemma_dec_value_take(d, i);
    }
}

/// Leading zero bytes do not contribute to a base-256 value.
pub proof fn lemma_base256_skip_zeros(s: Seq<u8>, k: int)
    requires
        0 <= k <= s.len(),
        forall|j: int| 0 <= j < k ==> s[j] == 0,
    ensures
        base256_value(s) == base256_value(s.skip(k)),
    decreases s.len(),
{
    if s.len() == 0 || k == 0 {
        assert(s.skip(k) =~= s);
    } else if k == s.len() {
        let d = s.drop_last();
        lemma_base256_skip_zeros(d, k - 1);
        assert(d.skip(k - 1) =~= Seq::<u8>::empty());
        assert(s.last() == s[s.len() - 1] == 0);
        assert(s.skip(k) =~= Seq::<u8>::empty());
    } else {
        let d = s.drop_last();
        lemma_base256_skip_zeros(d, k);
        assert(s.skip(k).drop_last() =~= d.skip(k));
        assert(s.skip(k).len() > 0);
        assert(s.skip(k).last() == s.last());
    }
}

/// A nonzero byte with at least `p` bytes after it forces a base-256 value
/// of at least `256^p`.
pub proof fn lemma_base256_lower_bound(s: Seq<u8>, i: int)
    requires
        0 <= i < s.len(),
        s[i] != 0,
    ensures
        base256_value(s) >= pow256((s.len() - i - 1) as nat),
    decreases s.len(),
{
    let d = s.drop_last();
    if i == s.len() - 1 {
        assert(base256_value(s) >= s.last());
        assert(pow256(0) == 1);
    } else {
        assert(d[i] == s[i]);
        lemma_base256_lower_bound(d, i);
        let p = (d.len() - i - 1) as nat;
        assert(base256_value(d) >= pow256(p));
        assert(base256_value(s) == base256_value(d) * 256 + s.last());
        assert(base256_value(d) * 256 >= pow256(p) * 256) by (nonlinear_arith)
            requires
                base256_value(d) >= pow256(p),
        ;
        assert(pow256(p) * 256 == pow256((p + 1) as nat));
    }
}

// ---------------------------------------------------------------------------
// Field parsing (specification)
// ---------------------------------------------------------------------------

pub open spec fn is_terminator(b: u8) -> bool {
    b == 0 || b == 0x20
}

pub open spec fn all_terminators(s: Seq<u8>) -> bool {
    forall|k: int| 0 <= k < s.len() ==> is_terminator(s[k])
}

/// Parse a NUL/space-terminated octal field: optional leading spaces, a
/// (possibly empty) octal digit run, then only NULs and spaces. An all-blank
/// field reads as zero, as historical tar readers accept; any other byte
/// makes the field unparseable.
pub open spec fn spec_parse_octal(s: Seq<u8>) -> Option<nat> {
    let sp = run_len(ByteClass::Space, s) as int;
    let rest = s.skip(sp);
    let d = run_len(ByteClass::OctalDigit, rest) as int;
    if all_terminators(rest.skip(d)) {
        Some(octal_value(rest.take(d)))
    } else {
        None
    }
}

/// Parse a numeric field: base-256 binary when the first byte has its high
/// bit set (the flag bit is masked off and the remaining bits are a
/// big-endian value), octal ASCII otherwise.
pub open spec fn spec_parse_num(s: Seq<u8>) -> Option<nat> {
    if s.len() > 0 && s[0] >= 0x80 {
        Some(base256_value(seq![(s[0] - 0x80) as u8] + s.skip(1)))
    } else {
        spec_parse_octal(s)
    }
}

/// Parse a decimal string: nonempty, all decimal digits.
pub open spec fn spec_parse_dec(s: Seq<u8>) -> Option<nat> {
    if s.len() > 0 && run_len(ByteClass::DecDigit, s) == s.len() {
        Some(dec_value(s))
    } else {
        None
    }
}

pub proof fn lemma_parse_octal_bound(s: Seq<u8>)
    ensures
        spec_parse_octal(s) matches Some(n) ==> n < pow8(s.len()),
{
    let sp = run_len(ByteClass::Space, s) as int;
    lemma_run_len_props(ByteClass::Space, s);
    let rest = s.skip(sp);
    let d = run_len(ByteClass::OctalDigit, rest) as int;
    lemma_run_len_props(ByteClass::OctalDigit, rest);
    lemma_octal_value_bound(rest.take(d));
    lemma_pow8_mono(rest.take(d).len(), s.len());
}

// ---------------------------------------------------------------------------
// Field formatting (specification)
// ---------------------------------------------------------------------------

/// The `n` low octal digits of `v`, most significant first, zero-padded.
pub open spec fn octal_digits(v: nat, n: nat) -> Seq<u8>
    decreases n,
{
    if n == 0 {
        Seq::empty()
    } else {
        octal_digits(v / 8, (n - 1) as nat).push((0x30 + v % 8) as u8)
    }
}

/// An octal field of width `w`: `w - 1` zero-padded digits and a NUL.
pub open spec fn spec_format_octal(v: nat, w: nat) -> Seq<u8> {
    octal_digits(v, (w - 1) as nat).push(0u8)
}

/// The `n` low base-256 digits of `v`, most significant first.
pub open spec fn be_bytes(v: nat, n: nat) -> Seq<u8>
    decreases n,
{
    if n == 0 {
        Seq::empty()
    } else {
        be_bytes(v / 256, (n - 1) as nat).push((v % 256) as u8)
    }
}

/// A base-256 field of width `w`: big-endian bytes with the high bit of the
/// first byte set as the binary-encoding flag.
pub open spec fn spec_format_base256(v: nat, w: nat) -> Seq<u8> {
    be_bytes(v, w).update(0, (be_bytes(v, w)[0] + 0x80) as u8)
}

pub proof fn lemma_octal_digits_len(v: nat, n: nat)
    ensures
        octal_digits(v, n).len() == n,
        forall|k: int|
            0 <= k < n ==> in_class(ByteClass::OctalDigit, #[trigger] octal_digits(v, n)[k]),
    decreases n,
{
    if n > 0 {
        lemma_octal_digits_len(v / 8, (n - 1) as nat);
    }
}

pub proof fn lemma_octal_digits_value(v: nat, n: nat)
    requires
        v < pow8(n),
    ensures
        octal_value(octal_digits(v, n)) == v,
    decreases n,
{
    if n == 0 {
        assert(octal_digits(v, 0) =~= Seq::<u8>::empty());
    } else {
        let q = v / 8;
        assert(q < pow8((n - 1) as nat)) by {
            lemma_multiply_divide_lt(v as int, 8, pow8((n - 1) as nat) as int);
        }
        lemma_octal_digits_value(q, (n - 1) as nat);
        let ds = octal_digits(v, n);
        lemma_octal_digits_len(q, (n - 1) as nat);
        assert(ds.drop_last() =~= octal_digits(q, (n - 1) as nat));
        assert(ds.last() == (0x30 + v % 8) as u8);
        assert(odigit_val(ds.last()) == v % 8);
        assert(octal_value(ds) == q * 8 + v % 8);
        assert(q * 8 + v % 8 == v) by {
            lemma_fundamental_div_mod(v as int, 8);
        }
    }
}

pub proof fn lemma_be_bytes_len(v: nat, n: nat)
    ensures
        be_bytes(v, n).len() == n,
    decreases n,
{
    if n > 0 {
        lemma_be_bytes_len(v / 256, (n - 1) as nat);
    }
}

pub proof fn lemma_be_bytes_value(v: nat, n: nat)
    requires
        v < pow256(n),
    ensures
        base256_value(be_bytes(v, n)) == v,
    decreases n,
{
    if n == 0 {
    } else {
        let q = v / 256;
        assert(q < pow256((n - 1) as nat)) by {
            lemma_multiply_divide_lt(v as int, 256, pow256((n - 1) as nat) as int);
        }
        lemma_be_bytes_value(q, (n - 1) as nat);
        let bs = be_bytes(v, n);
        lemma_be_bytes_len(q, (n - 1) as nat);
        assert(bs.drop_last() =~= be_bytes(q, (n - 1) as nat));
        assert(bs.last() == (v % 256) as u8);
        assert(base256_value(bs) == q * 256 + v % 256);
        assert(q * 256 + v % 256 == v) by {
            lemma_fundamental_div_mod(v as int, 256);
        }
    }
}

/// The first byte of a `w`-wide big-endian encoding of `v` is `v`'s top
/// base-256 digit; in particular it stays below the flag bit when
/// `v < 128 * 256^(w-1)`.
pub proof fn lemma_be_bytes_first(v: nat, n: nat)
    requires
        1 <= n,
        v < 128 * pow256((n - 1) as nat),
    ensures
        be_bytes(v, n)[0] < 0x80,
        be_bytes(v, n)[0] == v / pow256((n - 1) as nat),
    decreases n,
{
    lemma_be_bytes_len(v, n);
    if n == 1 {
        assert(pow256(0) == 1);
        assert(v < 128);
        assert(be_bytes(v, 1) =~= seq![(v % 256) as u8]);
        assert(v % 256 == v);
        assert(v / 1 == v);
    } else {
        let q = v / 256;
        assert(q < 128 * pow256((n - 2) as nat)) by {
            lemma_pow256_pos((n - 2) as nat);
            lemma_multiply_divide_lt(v as int, 256, 128 * pow256((n - 2) as nat) as int);
        }
        lemma_be_bytes_first(q, (n - 1) as nat);
        lemma_be_bytes_len(q, (n - 1) as nat);
        assert(be_bytes(v, n)[0] == be_bytes(q, (n - 1) as nat)[0]);
        assert(q / pow256((n - 2) as nat) == v / pow256((n - 1) as nat)) by {
            lemma_pow256_pos((n - 2) as nat);
            lemma_div_denominator(v as int, 256, pow256((n - 2) as nat) as int);
        }
    }
}

/// Octal round trip: a formatted octal field parses back to its value.
pub proof fn lemma_parse_format_octal(v: nat, w: nat)
    requires
        1 <= w,
        v < pow8((w - 1) as nat),
    ensures
        spec_format_octal(v, w).len() == w,
        spec_parse_octal(spec_format_octal(v, w)) == Some(v),
{
    let n = (w - 1) as nat;
    let ds = octal_digits(v, n);
    lemma_octal_digits_len(v, n);
    let f = spec_format_octal(v, w);
    assert(f.len() == w);
    assert(forall|k: int| 0 <= k < n ==> f[k] == ds[k]);
    assert(f[n as int] == 0u8);
    // no leading spaces: the first byte is a digit or the final NUL
    lemma_run_len_is(ByteClass::Space, f, 0);
    assert(f.skip(0) =~= f);
    // the digit run is exactly the first w - 1 bytes
    lemma_run_len_is(ByteClass::OctalDigit, f, n as int);
    assert(f.skip(n as int) =~= seq![0u8]);
    assert(all_terminators(seq![0u8]));
    assert(f.take(n as int) =~= ds);
    lemma_octal_digits_value(v, n);
}

/// Base-256 round trip: a formatted base-256 field parses back to its value.
pub proof fn lemma_parse_format_base256(v: nat, w: nat)
    requires
        1 <= w,
        v < 128 * pow256((w - 1) as nat),
    ensures
        spec_format_base256(v, w).len() == w,
        spec_parse_num(spec_format_base256(v, w)) == Some(v),
{
    let bs = be_bytes(v, w);
    lemma_be_bytes_len(v, w);
    lemma_be_bytes_first(v, w);
    let f = spec_format_base256(v, w);
    assert(f.len() == w);
    assert(f[0] == (bs[0] + 0x80) as u8);
    assert(f[0] >= 0x80);
    assert(seq![(f[0] - 0x80) as u8] + f.skip(1) =~= bs);
    assert(v < pow256(w)) by {
        lemma_pow256_pos((w - 1) as nat);
        assert(128 * pow256((w - 1) as nat) < 256 * pow256((w - 1) as nat)) by (nonlinear_arith)
            requires
                pow256((w - 1) as nat) >= 1,
        ;
    }
    lemma_be_bytes_value(v, w);
}

/// A numeric field as the writer emits it: octal when the value fits the
/// field's digit capacity, base-256 otherwise.
pub open spec fn spec_num_field(v: nat, w: nat) -> Seq<u8> {
    if v < pow8((w - 1) as nat) {
        spec_format_octal(v, w)
    } else {
        spec_format_base256(v, w)
    }
}

pub proof fn lemma_format_octal_len(v: nat, w: nat)
    requires
        1 <= w,
    ensures
        spec_format_octal(v, w).len() == w,
{
    lemma_octal_digits_len(v, (w - 1) as nat);
}

pub proof fn lemma_spec_num_field_len(v: nat, w: nat)
    requires
        1 <= w,
    ensures
        spec_num_field(v, w).len() == w,
{
    if v < pow8((w - 1) as nat) {
        lemma_octal_digits_len(v, (w - 1) as nat);
    } else {
        lemma_be_bytes_len(v, w);
    }
}

/// Either encoding of a numeric field parses back to its value.
pub proof fn lemma_parse_spec_num_field(v: nat, w: nat)
    requires
        1 <= w,
        v < 128 * pow256((w - 1) as nat),
    ensures
        spec_num_field(v, w).len() == w,
        spec_parse_num(spec_num_field(v, w)) == Some(v),
{
    if v < pow8((w - 1) as nat) {
        lemma_parse_format_octal(v, w);
        let f = spec_format_octal(v, w);
        lemma_octal_digits_len(v, (w - 1) as nat);
        if w == 1 {
            assert(f[0] == 0u8);
        } else {
            assert(f[0] == octal_digits(v, (w - 1) as nat)[0]);
            assert(in_class(ByteClass::OctalDigit, f[0]));
        }
        assert(f[0] < 0x80);
        assert(spec_parse_num(f) == spec_parse_octal(f));
    } else {
        lemma_parse_format_base256(v, w);
    }
}

// ---------------------------------------------------------------------------
// Zero-filled regions
// ---------------------------------------------------------------------------

/// Bytes of zero padding that follow a body of `n` bytes, up to the next
/// 512-byte boundary.
pub open spec fn pad512(n: nat) -> nat {
    (((512 - n % 512) % 512) as nat)
}

pub open spec fn zeros(n: nat) -> Seq<u8> {
    Seq::new(n, |i: int| 0u8)
}

pub open spec fn all_zero(s: Seq<u8>) -> bool {
    forall|k: int| 0 <= k < s.len() ==> s[k] == 0
}

// ---------------------------------------------------------------------------
// Executable scanning and parsing
// ---------------------------------------------------------------------------

fn byte_in_class(c: ByteClass, b: u8) -> (r: bool)
    ensures
        r == in_class(c, b),
{
    match c {
        ByteClass::Space => b == 0x20,
        ByteClass::OctalDigit => 0x30 <= b && b <= 0x37,
        ByteClass::DecDigit => 0x30 <= b && b <= 0x39,
        ByteClass::NonNul => b != 0,
        ByteClass::NotEq => b != 0x3d,
        ByteClass::NotSlash => b != 0x2f,
    }
}

/// Scan forward from `start` over bytes of class `c`, stopping at `end`.
pub(crate) fn scan_run(v: &Vec<u8>, start: usize, end: usize, c: ByteClass) -> (r: usize)
    requires
        start <= end <= v.len(),
    ensures
        start <= r <= end,
        r - start == run_len(c, v@.subrange(start as int, end as int)),
{
    let mut i: usize = start;
    while i < end && byte_in_class(c, v[i])
        invariant
            start <= i <= end <= v.len(),
            forall|k: int| start <= k < i ==> in_class(c, v@[k]),
        decreases end - i,
    {
        i = i + 1;
    }
    proof {
        let f = v@.subrange(start as int, end as int);
        assert forall|k: int| 0 <= k < i - start implies in_class(c, f[k]) by {
            assert(f[k] == v@[start + k]);
        }
        if i < end {
            assert(f[i - start] == v@[i as int]);
        }
        lemma_run_len_is(c, f, i - start);
    }
    i
}

/// Parse an octal field occupying `v[start..end]`.
#[verifier::rlimit(50)]
pub(crate) fn parse_octal_field(v: &Vec<u8>, start: usize, end: usize) -> (r: Option<u64>)
    requires
        start <= end <= v.len(),
        end - start <= 21,
    ensures
        match spec_parse_octal(v@.subrange(start as int, end as int)) {
            Some(n) => r == Some(n as u64) && n < pow8(21),
            None => r is None,
        },
{
    let ghost f = v@.subrange(start as int, end as int);
    proof {
        lemma_parse_octal_bound(f);
        lemma_pow8_mono(f.len(), 21);
    }
    let sp = scan_run(v, start, end, ByteClass::Space);
    let ghost rest = f.skip(sp - start);
    proof {
        assert(rest =~= v@.subrange(sp as int, end as int));
    }
    let de = scan_run(v, sp, end, ByteClass::OctalDigit);
    let ghost d = (de - sp) as int;
    // everything after the digits must be NUL or space
    let mut k: usize = de;
    while k < end
        invariant
            de <= k <= end <= v.len(),
            forall|j: int| de <= j < k ==> is_terminator(v@[j]),
        decreases end - k,
    {
        let b = v[k];
        if !(b == 0 || b == 0x20) {
            proof {
                assert(rest.skip(d)[k - de] == v@[k as int]);
                assert(!all_terminators(rest.skip(d)));
            }
            return None;
        }
        k = k + 1;
    }
    proof {
        assert forall|j: int| 0 <= j < rest.skip(d).len() implies is_terminator(rest.skip(d)[j]) by {
            assert(rest.skip(d)[j] == v@[de + j]);
        }
        assert(all_terminators(rest.skip(d)));
    }
    // accumulate the digit run
    let mut acc: u64 = 0;
    let mut j: usize = sp;
    while j < de
        invariant
            sp <= j <= de <= v.len(),
            de - sp <= 21,
            sp == start + run_len(ByteClass::Space, f),
            start <= sp,
            de - sp == run_len(ByteClass::OctalDigit, rest),
            rest =~= f.skip(sp - start),
            f =~= v@.subrange(start as int, end as int),
            start <= end <= v.len(),
            acc == octal_value(v@.subrange(sp as int, j as int)),
            acc < pow8((j - sp) as nat),
        decreases de - j,
    {
        proof {
            lemma_run_len_props(ByteClass::OctalDigit, rest);
            assert(rest[j - sp] == v@[j as int]);
            assert(in_class(ByteClass::OctalDigit, v@[j as int]));
            lemma_pow8_mono((j - sp + 1) as nat, 21);
            assert(pow8(21) == 8 * pow8(20)) by {
                assert(21nat - 1nat == 20nat);
            }
            lemma_pow8_mono((j - sp) as nat, 20);
            assert(pow8(21) <= 0x8000000000000000) by {
                reveal_with_fuel(pow8, 22);
            }
        }
        let b = v[j];
        acc = acc * 8 + ((b - 0x30) as u64);
        proof {
            let prev = v@.subrange(sp as int, j as int);
            let cur = v@.subrange(sp as int, j + 1 as int);
            assert(cur.drop_last() =~= prev);
            assert(cur.last() == v@[j as int]);
            assert(odigit_val(v@[j as int]) == v@[j as int] - 0x30);
        }
        j = j + 1;
    }
    proof {
        assert(rest.take(d) =~= v@.subrange(sp as int, de as int));
        assert(spec_parse_octal(f) == Some(octal_value(rest.take(d))));
    }
    Some(acc)
}

/// Parse a numeric field (octal or flagged base-256) occupying
/// `v[start..end]`. Returns `None` both for an unparseable field and for a
/// base-256 value that does not fit in 64 bits.
pub(crate) fn parse_num_field(v: &Vec<u8>, start: usize, end: usize) -> (r: Option<u64>)
    requires
        start < end <= v.len(),
        end - start <= 21,
    ensures
        match spec_parse_num(v@.subrange(start as int, end as int)) {
            Some(n) => if n <= u64::MAX {
                r == Some(n as u64)
            } else {
                r is None
            },
            None => r is None,
        },
{
    let ghost f = v@.subrange(start as int, end as int);
    let first = v[start];
    if first >= 0x80 {
        let w = end - start;
        let m0 = first - 0x80;
        let ghost payload = seq![(f[0] - 0x80) as u8] + f.skip(1);
        proof {
            assert(payload.len() == w);
            assert(payload[0] == m0);
            assert(forall|k: int| 1 <= k < w ==> payload[k] == v@[start + k]);
        }
        // bytes that would carry weight 256^8 or more must be zero
        if w > 8 {
            if m0 != 0 {
                proof {
                    lemma_base256_lower_bound(payload, 0);
                    lemma_pow256_ge_2_64((w - 1) as nat);
                }
                return None;
            }
            let mut k: usize = 1;
            while k < w - 8
                invariant
                    1 <= k <= w - 8,
                    w == end - start,
                    start < end <= v.len(),
                    8 < w <= 21,
                    forall|j: int| 1 <= j < k ==> #[trigger] v@[start + j] == 0,
                decreases w - k,
            {
                if v[start + k] != 0 {
                    proof {
                        assert(payload[k as int] != 0);
                        lemma_base256_lower_bound(payload, k as int);
                        lemma_pow256_ge_2_64((w - 1 - k) as nat);
                    }
                    return None;
                }
                k = k + 1;
            }
            proof {
                assert forall|j: int| 0 <= j < w - 8 implies payload[j] == 0 by {
                    if j > 0 {
                        assert(payload[j] == v@[start + j]);
                    }
                }
                lemma_base256_skip_zeros(payload, w - 8);
                assert(payload.skip(w - 8) =~= v@.subrange(end - 8, end as int));
            }
            let r = accumulate_base256(v, end - 8, end);
            proof {
                lemma_base256_value_bound(v@.subrange(end - 8, end as int));
                lemma_pow256_8();
            }
            Some(r)
        } else {
            // the masked first byte plus at most 7 more: always fits
            let ghost tail = v@.subrange(start + 1, end as int);
            let mut acc: u64 = m0 as u64;
            let mut k: usize = start + 1;
            proof {
                assert(payload.take(1) =~= seq![m0]);
                assert(seq![m0].drop_last() =~= Seq::<u8>::empty());
                assert(base256_value(Seq::<u8>::empty()) == 0);
                assert(base256_value(seq![m0]) == m0 as nat);
                assert(pow256(1) == 256 * pow256(0));
                assert(m0 < 256);
            }
            while k < end
                invariant
                    start + 1 <= k <= end <= v.len(),
                    end - start <= 8,
                    acc == base256_value(payload.take(k - start)),
                    acc < pow256((k - start) as nat),
                    payload.len() == end - start,
                    payload[0] == m0,
                    forall|j: int| 1 <= j < end - start ==> payload[j] == v@[start + j],
                decreases end - k,
            {
                proof {
                    lemma_pow256_le_2_64((k - start) as nat, 7);
                    let prev = payload.take(k - start);
                    let cur = payload.take(k - start + 1);
                    assert(cur.drop_last() =~= prev);
                    assert(cur.last() == payload[k - start] == v@[k as int]);
                }
                acc = acc * 256 + (v[k] as u64);
                k = k + 1;
            }
            proof {
                assert(payload.take(end - start) =~= payload);
            }
            Some(acc)
        }
    } else {
        proof {
            assert(pow8(21) <= 0x8000000000000000) by {
                reveal_with_fuel(pow8, 22);
            }
        }
        parse_octal_field(v, start, end)
    }
}

/// The three ways a numeric field can read.
pub enum NumField {
    Value(u64),
    TooBig,
    Malformed,
}

/// Classify a numeric field: its value when it parses and fits 64 bits,
/// `TooBig` when it parses but does not fit, `Malformed` otherwise.
pub(crate) fn classify_num_field(v: &Vec<u8>, start: usize, end: usize) -> (r: NumField)
    requires
        start < end <= v.len(),
        end - start <= 21,
    ensures
        match spec_parse_num(v@.subrange(start as int, end as int)) {
            Some(n) => if n <= u64::MAX {
                r == NumField::Value(n as u64)
            } else {
                r == NumField::TooBig
            },
            None => r == NumField::Malformed,
        },
{
    if v[start] >= 0x80 {
        match parse_num_field(v, start, end) {
            Some(n) => NumField::Value(n),
            None => NumField::TooBig,
        }
    } else {
        proof {
            assert(pow8(21) <= 0x8000000000000000) by {
                reveal_with_fuel(pow8, 22);
            }
        }
        match parse_octal_field(v, start, end) {
            Some(n) => NumField::Value(n),
            None => NumField::Malformed,
        }
    }
}

/// Accumulate exactly eight base-256 bytes; the result always fits in 64
/// bits.
fn accumulate_base256(v: &Vec<u8>, start: usize, end: usize) -> (r: u64)
    requires
        start <= end <= v.len(),
        end - start == 8,
    ensures
        r == base256_value(v@.subrange(start as int, end as int)),
{
    let ghost f = v@.subrange(start as int, end as int);
    let mut acc: u64 = 0;
    let mut k: usize = start;
    proof {
        assert(f.take(0) =~= Seq::<u8>::empty());
    }
    while k < end
        invariant
            start <= k <= end <= v.len(),
            end - start == 8,
            f =~= v@.subrange(start as int, end as int),
            acc == base256_value(f.take(k - start)),
            acc < pow256((k - start) as nat),
        decreases end - k,
    {
        proof {
            lemma_pow256_le_2_64((k - start) as nat, 7);
            let prev = f.take(k - start);
            let cur = f.take(k - start + 1);
            assert(cur.drop_last() =~= prev);
            assert(cur.last() == f[k - start] == v@[k as int]);
        }
        acc = acc * 256 + (v[k] as u64);
        k = k + 1;
    }
    proof {
        assert(f.take(end - start) =~= f);
    }
    acc
}

proof fn lemma_pow256_8()
    ensures
        pow256(8) == 0x1_0000_0000_0000_0000,
{
    reveal_with_fuel(pow256, 9);
}

pub proof fn lemma_pow256_ge_2_64(n: nat)
    requires
        n >= 8,
    ensures
        pow256(n) >= 0x1_0000_0000_0000_0000,
    decreases n,
{
    if n == 8 {
        lemma_pow256_8();
    } else {
        lemma_pow256_ge_2_64((n - 1) as nat);
    }
}

proof fn lemma_pow256_le_2_64(n: nat, m: nat)
    requires
        n <= m <= 7,
    ensures
        256 * pow256(n) <= 0x1_0000_0000_0000_0000,
    decreases m,
{
    if n == m {
        assert(pow256(7) == 0x100_0000_0000_0000) by {
            reveal_with_fuel(pow256, 8);
        }
        lemma_pow256_mono(n, 7);
    } else {
        lemma_pow256_le_2_64(n, (m - 1) as nat);
    }
}

proof fn lemma_pow256_mono(m: nat, n: nat)
    requires
        m <= n,
    ensures
        pow256(m) <= pow256(n),
    decreases n,
{
    if m < n {
        lemma_pow256_mono(m, (n - 1) as nat);
        lemma_pow256_pos((n - 1) as nat);
    }
}

/// Parse an all-decimal string occupying `v[start..end]`. Returns `None`
/// when the string is empty, contains a non-digit, or exceeds 64 bits.
pub(crate) fn parse_dec_field(v: &Vec<u8>, start: usize, end: usize) -> (r: Option<u64>)
    requires
        start <= end <= v.len(),
    ensures
        match spec_parse_dec(v@.subrange(start as int, end as int)) {
            Some(n) => if n <= u64::MAX {
                r == Some(n as u64)
            } else {
                r is None
            },
            None => r is None,
        },
{
    let ghost f = v@.subrange(start as int, end as int);
    if start == end {
        return None;
    }
    let de = scan_run(v, start, end, ByteClass::DecDigit);
    if de < end {
        proof {
            lemma_run_len_props(ByteClass::DecDigit, f);
            assert(run_len(ByteClass::DecDigit, f) < f.len());
        }
        return None;
    }
    let mut acc: u64 = 0;
    let mut j: usize = start;
    proof {
        assert(f.take(0) =~= Seq::<u8>::empty());
    }
    while j < end
        invariant
            start <= j <= end <= v.len(),
            f =~= v@.subrange(start as int, end as int),
            run_len(ByteClass::DecDigit, f) == f.len(),
            acc == dec_value(f.take(j - start)),
        decreases end - j,
    {
        proof {
            lemma_run_len_props(ByteClass::DecDigit, f);
            assert(in_class(ByteClass::DecDigit, f[j - start]));
            assert(f[j - start] == v@[j as int]);
        }
        let b = v[j];
        let d = (b - 0x30) as u64;
        if acc > (u64::MAX - d) / 10 {
            proof {
                let cur = f.take(j - start + 1);
                assert(cur.drop_last() =~= f.take(j - start));
                assert(cur.last() == f[j - start]);
                assert(ddigit_val(f[j - start]) == d);
                assert(dec_value(cur) == acc * 10 + d);
                assert(acc * 10 + d > u64::MAX) by (nonlinear_arith)
                    requires
                        acc > (u64::MAX - d) / 10,
                        d <= 9,
                ;
                lemma_dec_value_take(f, j - start + 1);
            }
            return None;
        }
        proof {
            let cur = f.take(j - start + 1);
            assert(cur.drop_last() =~= f.take(j - start));
            assert(cur.last() == f[j - start]);
            assert(ddigit_val(f[j - start]) == d);
            assert(acc * 10 + d <= u64::MAX) by (nonlinear_arith)
                requires
                    acc <= (u64::MAX - d) / 10,
                    d <= 9,
            ;
        }
        acc = acc * 10 + d;
        j = j + 1;
    }
    proof {
        assert(f.take(end - start) =~= f);
    }
    Some(acc)
}

// ---------------------------------------------------------------------------
// Executable formatting
// ---------------------------------------------------------------------------

/// Write `val` as an octal field of `width` bytes at `v[start..]`.
pub(crate) fn write_octal(v: &mut Vec<u8>, start: usize, width: usize, val: u64)
    requires
        1 <= width,
        start + width <= old(v).len(),
        val < pow8((width - 1) as nat),
    ensures
        final(v)@.len() == old(v)@.len(),
        forall|i: int|
            0 <= i < final(v)@.len() && !(start <= i < start + width) ==> final(v)@[i] == old(
                v,
            )@[i],
        final(v)@.subrange(start as int, (start + width) as int) == spec_format_octal(
            val as nat,
            width as nat,
        ),
{
    v.set(start + width - 1, 0u8);
    let mut x: u64 = val;
    let mut k: usize = width - 1;
    proof {
        assert(octal_digits(val as nat, 0) =~= Seq::<u8>::empty());
        assert(v@.subrange((start + k) as int, (start + width - 1) as int) =~= Seq::<u8>::empty());
        assert(pow8(0) == 1);
        vstd::arithmetic::div_mod::lemma_div_basics(val as int);
        assert((val as nat) / pow8(0) == val as nat);
    }
    while k > 0
        invariant
            0 <= k <= width - 1,
            start + width <= v.len(),
            v@.len() == old(v)@.len(),
            x == (val as nat) / pow8((width - 1 - k) as nat),
            octal_digits(x as nat, k as nat) + v@.subrange(
                (start + k) as int,
                (start + width - 1) as int,
            ) =~= octal_digits(val as nat, (width - 1) as nat),
            v@[(start + width - 1) as int] == 0u8,
            forall|i: int|
                0 <= i < v@.len() && !(start <= i < start + width) ==> v@[i] == old(v)@[i],
        decreases k,
    {
        let d: u8 = 0x30 + ((x % 8) as u8);
        let ghost prev = v@;
        v.set(start + k - 1, d);
        proof {
            let lo = (start + k - 1) as int;
            let hi = (start + width - 1) as int;
            assert(v@.subrange(lo, hi) =~= seq![d] + prev.subrange(lo + 1, hi));
            let digs = octal_digits((x as nat) / 8, (k - 1) as nat);
            lemma_octal_digits_len((x as nat) / 8, (k - 1) as nat);
            assert(octal_digits(x as nat, k as nat) == digs.push(d));
            assert(digs.push(d) + prev.subrange(lo + 1, hi) =~= digs + (seq![d] + prev.subrange(
                lo + 1,
                hi,
            )));
            // x advances by one more division by 8
            lemma_pow8_pos((width - 1 - k) as nat);
            lemma_div_by_8(val as nat, (width - 1 - k) as nat);
        }
        x = x / 8;
        k = k - 1;
    }
    proof {
        assert(octal_digits(x as nat, 0) =~= Seq::<u8>::empty());
        let digs = octal_digits(val as nat, (width - 1) as nat);
        lemma_octal_digits_len(val as nat, (width - 1) as nat);
        assert(v@.subrange(start as int, (start + width - 1) as int) =~= digs);
        assert(v@.subrange(start as int, (start + width) as int) =~= digs.push(0u8));
    }
}

proof fn lemma_div_by_8(v: nat, m: nat)
    ensures
        (v / pow8(m)) / 8 == v / pow8((m + 1) as nat),
{
    lemma_pow8_pos(m);
    lemma_div_denominator(v as int, pow8(m) as int, 8);
    assert(pow8(m) * 8 == pow8((m + 1) as nat)) by {
        assert(pow8((m + 1) as nat) == 8 * pow8(m));
    }
}

/// Write `val` as a base-256 field of `width` bytes at `v[start..]`.
pub(crate) fn write_base256(v: &mut Vec<u8>, start: usize, width: usize, val: u64)
    requires
        1 <= width,
        start + width <= old(v).len(),
        val < 128 * pow256((width - 1) as nat),
    ensures
        final(v)@.len() == old(v)@.len(),
        forall|i: int|
            0 <= i < final(v)@.len() && !(start <= i < start + width) ==> final(v)@[i] == old(
                v,
            )@[i],
        final(v)@.subrange(start as int, (start + width) as int) == spec_format_base256(
            val as nat,
            width as nat,
        ),
{
    let mut x: u64 = val;
    let mut k: usize = width;
    proof {
        assert(be_bytes(val as nat, 0) =~= Seq::<u8>::empty());
        assert(v@.subrange((start + k) as int, (start + width) as int) =~= Seq::<u8>::empty());
        assert(pow256(0) == 1);
        vstd::arithmetic::div_mod::lemma_div_basics(val as int);
        assert((val as nat) / pow256(0) == val as nat);
    }
    while k > 0
        invariant
            0 <= k <= width,
            start + width <= v.len(),
            v@.len() == old(v)@.len(),
            x == (val as nat) / pow256((width - k) as nat),
            be_bytes(x as nat, k as nat) + v@.subrange((start + k) as int, (start + width) as int)
                =~= be_bytes(val as nat, width as nat),
            forall|i: int|
                0 <= i < v@.len() && !(start <= i < start + width) ==> v@[i] == old(v)@[i],
        decreases k,
    {
        let d: u8 = (x % 256) as u8;
        let ghost prev = v@;
        v.set(start + k - 1, d);
        proof {
            let lo = (start + k - 1) as int;
            let hi = (start + width) as int;
            assert(v@.subrange(lo, hi) =~= seq![d] + prev.subrange(lo + 1, hi));
            let digs = be_bytes((x as nat) / 256, (k - 1) as nat);
            lemma_be_bytes_len((x as nat) / 256, (k - 1) as nat);
            assert(be_bytes(x as nat, k as nat) == digs.push(d));
            assert(digs.push(d) + prev.subrange(lo + 1, hi) =~= digs + (seq![d] + prev.subrange(
                lo + 1,
                hi,
            )));
            lemma_pow256_pos((width - k) as nat);
            lemma_div_by_256(val as nat, (width - k) as nat);
        }
        x = x / 256;
        k = k - 1;
    }
    let ghost mid = v@;
    proof {
        assert(be_bytes(x as nat, 0) =~= Seq::<u8>::empty());
        lemma_be_bytes_len(val as nat, width as nat);
        assert(mid.subrange(start as int, (start + width) as int) =~= be_bytes(
            val as nat,
            width as nat,
        ));
        lemma_be_bytes_first(val as nat, width as nat);
    }
    let b0 = v[start];
    v.set(start, b0 + 0x80);
    proof {
        assert(v@.subrange(start as int, (start + width) as int) =~= spec_format_base256(
            val as nat,
            width as nat,
        ));
    }
}

proof fn lemma_div_by_256(v: nat, m: nat)
    ensures
        (v / pow256(m)) / 256 == v / pow256((m + 1) as nat),
{
    lemma_pow256_pos(m);
    lemma_div_denominator(v as int, pow256(m) as int, 256);
    assert(pow256(m) * 256 == pow256((m + 1) as nat)) by {
        assert(pow256((m + 1) as nat) == 256 * pow256(m));
    }
}

/// Write `val` at `v[start..start+width]` in the encoding the writer emits:
/// octal when it fits, base-256 otherwise.
pub(crate) fn write_num_field(v: &mut Vec<u8>, start: usize, width: usize, val: u64)
    requires
        1 <= width,
        start + width <= old(v).len(),
        (val as nat) < 128 * pow256((width - 1) as nat),
    ensures
        final(v)@.len() == old(v)@.len(),
        forall|i: int|
            0 <= i < final(v)@.len() && !(start <= i < start + width) ==> final(v)@[i] == old(
                v,
            )@[i],
        final(v)@.subrange(start as int, (start + width) as int) == spec_num_field(
            val as nat,
            width as nat,
        ),
{
    let fits = fits_octal(val, width);
    if fits {
        write_octal(v, start, width, val);
    } else {
        write_base256(v, start, width, val);
    }
}

/// Decide whether `val` fits the octal digit capacity of a `width`-byte
/// field.
fn fits_octal(val: u64, width: usize) -> (r: bool)
    requires
        1 <= width,
    ensures
        r == ((val as nat) < pow8((width - 1) as nat)),
{
    proof {
        assert(pow8(22) == 0x40000000000000000) by {
            reveal_with_fuel(pow8, 23);
        }
    }
    if width > 22 {
        proof {
            lemma_pow8_mono(22, (width - 1) as nat);
        }
        return true;
    }
    let mut p: u64 = 1;
    let mut k: usize = 0;
    while k < width - 1
        invariant
            0 <= k <= width - 1,
            width <= 22,
            p == pow8(k as nat),
        decreases width - 1 - k,
    {
        proof {
            assert(pow8(21) == 0x8000000000000000) by {
                reveal_with_fuel(pow8, 22);
            }
            lemma_pow8_mono(k as nat, 20);
            assert(pow8(21) == 8 * pow8(20));
        }
        p = p * 8;
        k = k + 1;
    }
    val < p
}

/// Copy `data` into the field `v[start..start+width]`, zero-filling the
/// remainder.
pub(crate) fn write_bytes_field(v: &mut Vec<u8>, start: usize, width: usize, data: &Vec<u8>)
    requires
        start + width <= old(v).len(),
        data.len() <= width,
    ensures
        final(v)@.len() == old(v)@.len(),
        forall|i: int|
            0 <= i < final(v)@.len() && !(start <= i < start + width) ==> final(v)@[i] == old(
                v,
            )@[i],
        final(v)@.subrange(start as int, (start + width) as int) == data@ + zeros(
            (width - data.len()) as nat,
        ),
{
    let n = data.len();
    let mut k: usize = 0;
    while k < n
        invariant
            0 <= k <= n == data.len() <= width,
            start + width <= v.len(),
            v@.len() == old(v)@.len(),
            forall|i: int| 0 <= i < k ==> v@[start + i] == data@[i],
            forall|i: int|
                0 <= i < v@.len() && !(start <= i < start + width) ==> v@[i] == old(v)@[i],
        decreases n - k,
    {
        v.set(start + k, data[k]);
        k = k + 1;
    }
    while k < width
        invariant
            n <= k <= width,
            n == data.len(),
            start + width <= v.len(),
            v@.len() == old(v)@.len(),
            forall|i: int| 0 <= i < n ==> v@[start + i] == data@[i],
            forall|i: int| n <= i < k ==> #[trigger] v@[start + i] == 0u8,
            forall|i: int|
                0 <= i < v@.len() && !(start <= i < start + width) ==> v@[i] == old(v)@[i],
        decreases width - k,
    {
        v.set(start + k, 0u8);
        k = k + 1;
    }
    proof {
        let out = v@.subrange(start as int, (start + width) as int);
        let rhs = data@ + zeros((width - data.len()) as nat);
        assert forall|i: int| 0 <= i < width implies out[i] == rhs[i] by {
            assert(out[i] == v@[start + i]);
            if i >= n {
                assert(v@[start + i] == 0u8);
                assert(rhs[i] == zeros((width - n) as nat)[i - n]);
            }
        }
        assert(out =~= rhs);
    }
}

/// Copy `v[start..end]` into a fresh vector.
pub(crate) fn copy_range(v: &Vec<u8>, start: usize, end: usize) -> (r: Vec<u8>)
    requires
        start <= end <= v.len(),
    ensures
        r@ == v@.subrange(start as int, end as int),
{
    let mut out: Vec<u8> = Vec::new();
    let mut k: usize = start;
    while k < end
        invariant
            start <= k <= end <= v.len(),
            out@ =~= v@.subrange(start as int, k as int),
        decreases end - k,
    {
        out.push(v[k]);
        proof {
            assert(out@ =~= v@.subrange(start as int, (k + 1) as int));
        }
        k = k + 1;
    }
    proof {
        assert(out@ =~= v@.subrange(start as int, end as int));
    }
    out
}

} // verus!
