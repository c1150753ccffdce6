//! LEB128 variable-length unsigned integers.
//!
//! Each 7-bit group is emitted little-endian, with the most significant bit
//! used as a continuation flag. A `u32` takes at most five bytes, a `u64` at
//! most ten.
use vstd::prelude::*;

use crate::error::{DecodeError, Error, Result};

verus! {

/// Maximum bytes a `u32` ever occupies in LEB128 form.
pub const MAX_VARINT_U32_BYTES: usize = 5;

/// Maximum bytes a `u64` ever occupies in LEB128 form.
pub const MAX_VARINT_U64_BYTES: usize = 10;

/// The LEB128 form of `v`: groups of seven bits, low group first, with 128
/// added to every byte but the last.
pub open spec fn varint(v: nat) -> Seq<u8>
    decreases v,
{
    if v < 128 {
        seq![v as u8]
    } else {
        seq![(v % 128 + 128) as u8] + varint(v / 128)
    }
}

/// What reading a varint from the front of some bytes comes to.
pub enum VarintParse {
    /// A value, and the number of bytes it took.
    Done(nat, nat),
    /// The bytes ended first.
    Eof,
    /// The encoding is longer than allowed, or its last group is too large.
    Overflow,
}

/// Read the groups of a varint from index `i` on. At most `max` bytes are
/// looked at, and the `max`-th may carry a group of at most `last`.
pub open spec fn varint_parse_from(input: Seq<u8>, i: nat, max: nat, last: nat) -> VarintParse
    decreases max - i,
{
    if i >= max {
        VarintParse::Overflow
    } else if i >= input.len() {
        VarintParse::Eof
    } else {
        let group = (input[i as int] % 128) as nat;
        if i + 1 == max && group > last {
            VarintParse::Overflow
        } else if input[i as int] < 128 {
            VarintParse::Done(group, i + 1)
        } else {
            match varint_parse_from(input, i + 1, max, last) {
                VarintParse::Done(v, n) => VarintParse::Done(group + 128 * v, n),
                other => other,
            }
        }
    }
}

/// Read a `u64` varint from the front of `input`.
pub open spec fn varint_parse_u64(input: Seq<u8>) -> VarintParse {
    varint_parse_from(input, 0, 10, 1)
}

/// Read a `u32` varint from the front of `input`.
pub open spec fn varint_parse_u32(input: Seq<u8>) -> VarintParse {
    varint_parse_from(input, 0, 5, 15)
}

/// The error that a failed parse of at most `max` bytes is reported with.
pub open spec fn varint_error(p: VarintParse, input_len: nat, max: nat) -> DecodeError {
    match p {
        VarintParse::Eof => DecodeError::UnexpectedEof { needed: (max - input_len) as usize },
        _ => DecodeError::VarintOverflow { max_bytes: max as usize },
    }
}

/// A parsed value is read from at least one and at most `max` bytes of the
/// input.
pub proof fn lemma_parse_bounds(input: Seq<u8>, i: nat, max: nat, last: nat)
    ensures
        varint_parse_from(input, i, max, last) matches VarintParse::Done(v, n) ==> i < n <= max
            && n <= input.len(),
        varint_parse_from(input, i, max, last) is Eof ==> input.len() < max,
    decreases max - i,
{
    if i < max && i < input.len() {
        lemma_parse_bounds(input, i + 1, max, last);
    }
}

/// The length of a varint grows with the value, and is at least one.
pub proof fn lemma_varint_len(v: nat)
    ensures
        1 <= varint(v).len(),
        v < 128 ==> varint(v).len() == 1,
        v >= 128 ==> varint(v).len() == 1 + varint(v / 128).len(),
        v < 0x1_0000_0000 ==> varint(v).len() <= 5,
        v <= u64::MAX ==> varint(v).len() <= 10,
    decreases v,
{
    reveal_with_fuel(varint, 11);
    if v >= 128 {
        lemma_varint_len(v / 128);
    }
}

/// Number of bytes before the last in the form of `v`, and the last group.
proof fn lemma_parse_of_form(pre: Seq<u8>, v: nat, rest: Seq<u8>, max: nat, last: nat)
    requires
        pre.len() + varint(v).len() <= max,
        pre.len() + varint(v).len() == max ==> form_top(v) <= last,
    ensures
        varint_parse_from(pre + varint(v) + rest, pre.len(), max, last) == VarintParse::Done(
            v,
            pre.len() + varint(v).len(),
        ),
    decreases v,
{
    let input = pre + varint(v) + rest;
    lemma_varint_len(v);
    assert(input[pre.len() as int] == varint(v)[0]);
    if v >= 128 {
        let b = (v % 128 + 128) as u8;
        assert(varint(v) =~= seq![b] + varint(v / 128));
        assert(input =~= pre.push(b) + varint(v / 128) + rest);
        lemma_varint_len(v / 128);
        lemma_parse_of_form(pre.push(b), v / 128, rest, max, last);
        assert(b % 128 == v % 128);
    }
}

/// The highest group of `v`: what the last byte of its form carries.
pub open spec fn form_top(v: nat) -> nat
    decreases v,
{
    if v < 128 {
        v
    } else {
        form_top(v / 128)
    }
}

proof fn lemma_top_u64(v: nat)
    requires
        v <= u64::MAX,
        varint(v).len() == 10,
    ensures
        form_top(v) <= 1,
{
    reveal_with_fuel(varint, 11);
    reveal_with_fuel(form_top, 11);
}

proof fn lemma_top_u32(v: nat)
    requires
        v < 0x1_0000_0000,
        varint(v).len() == 5,
    ensures
        form_top(v) <= 15,
{
    reveal_with_fuel(varint, 6);
    reveal_with_fuel(form_top, 6);
}

/// Law: reading a `u64` varint gives back what was written, whatever follows
/// it, and takes exactly the written bytes.
pub proof fn law_varint_u64_round_trip(v: u64, rest: Seq<u8>)
    ensures
        varint_parse_u64(varint(v as nat) + rest) == VarintParse::Done(
            v as nat,
            varint(v as nat).len(),
        ),
        varint(v as nat).len() <= MAX_VARINT_U64_BYTES,
{
    lemma_varint_len(v as nat);
    if varint(v as nat).len() == 10 {
        lemma_top_u64(v as nat);
    }
    lemma_parse_of_form(Seq::empty(), v as nat, rest, 10, 1);
    assert(Seq::<u8>::empty() + varint(v as nat) + rest =~= varint(v as nat) + rest);
}

/// Law: reading a `u32` varint gives back what was written, whatever follows
/// it, and takes exactly the written bytes.
pub proof fn law_varint_u32_round_trip(v: u32, rest: Seq<u8>)
    ensures
        varint_parse_u32(varint(v as nat) + rest) == VarintParse::Done(
            v as nat,
            varint(v as nat).len(),
        ),
        varint(v as nat).len() <= MAX_VARINT_U32_BYTES,
{
    lemma_varint_len(v as nat);
    if varint(v as nat).len() == 5 {
        lemma_top_u32(v as nat);
    }
    lemma_parse_of_form(Seq::empty(), v as nat, rest, 5, 15);
    assert(Seq::<u8>::empty() + varint(v as nat) + rest =~= varint(v as nat) + rest);
}

/// Law: the written form is canonical. Its last byte is zero only for the
/// single byte that stands for zero.
pub proof fn law_varint_form_is_canonical(v: nat)
    ensures
        varint(v).len() > 1 ==> varint(v).last() != 0,
        varint(v).last() < 128,
    decreases v,
{
    lemma_varint_len(v);
    if v >= 128 {
        law_varint_form_is_canonical(v / 128);
        lemma_varint_len(v / 128);
        assert(varint(v).last() == varint(v / 128).last());
    }
}

/// The number whose groups of seven bits, the low group first, the bytes carry.
pub open spec fn groups_value(s: Seq<u8>) -> nat
    decreases s.len(),
{
    if s.len() == 0 {
        0
    } else {
        (s[0] % 128) as nat + 128 * groups_value(s.subrange(1, s.len() as int))
    }
}

/// `n` bytes from the front of `s` make up a varint: all but the last are marked
/// as having more behind them.
pub open spec fn varint_ends_at(s: Seq<u8>, n: nat) -> bool {
    &&& 1 <= n <= s.len()
    &&& s[n - 1] < 128
    &&& forall|i: int| 0 <= i < n - 1 ==> #[trigger] s[i] >= 128
}

/// Reading from index `i` on goes by the groups from there on.
proof fn lemma_parse_by_groups(s: Seq<u8>, n: nat, i: nat, max: nat, last: nat)
    requires
        varint_ends_at(s, n),
        i < n,
        i < max,
        last < 128,
    ensures
        ({
            let v = groups_value(s.subrange(i as int, n as int));
            if n <= max && v < (last + 1) * pow128((max - 1 - i) as nat) {
                varint_parse_from(s, i, max, last) == VarintParse::Done(v, n)
            } else {
                varint_parse_from(s, i, max, last) is Overflow
            }
        }),
    decreases max - i,
{
    let rest = s.subrange(i as int, n as int);
    let behind = s.subrange((i + 1) as int, n as int);
    let group = (s[i as int] % 128) as nat;
    let k = (max - 1 - i) as nat;
    let whole = (last + 1) * pow128(k);
    assert(rest.subrange(1, rest.len() as int) =~= behind);
    assert(rest[0] == s[i as int]);
    assert(groups_value(rest) == group + 128 * groups_value(behind));
    if i + 1 == n {
        assert(behind =~= Seq::empty());
        assert(groups_value(rest) == group);
        assert(s[i as int] < 128);
        if k > 0 {
            lemma_pow128_positive((k - 1) as nat);
            assert(whole >= 128) by (nonlinear_arith)
                requires
                    whole == (last + 1) * pow128(k),
                    pow128(k) == 128 * pow128((k - 1) as nat),
                    pow128((k - 1) as nat) >= 1,
            ;
        } else {
            assert(whole == last + 1) by (nonlinear_arith)
                requires
                    whole == (last + 1) * pow128(k),
                    pow128(k) == 1,
            ;
        }
    } else {
        assert(s[i as int] >= 128);
        if i + 1 < max {
            let v = groups_value(behind);
            let c = (last + 1) * pow128((k - 1) as nat);
            lemma_parse_by_groups(s, n, i + 1, max, last);
            assert(whole == 128 * c) by (nonlinear_arith)
                requires
                    whole == (last + 1) * pow128(k),
                    pow128(k) == 128 * pow128((k - 1) as nat),
                    c == (last + 1) * pow128((k - 1) as nat),
            ;
            assert(group + 128 * v < 128 * c <==> v < c);
            assert((max - 1 - (i + 1)) as nat == (k - 1) as nat);
        } else {
            assert(n > max);
            assert(varint_parse_from(s, i + 1, max, last) is Overflow);
        }
    }
}

proof fn lemma_pow128_positive(i: nat)
    ensures
        pow128(i) >= 1,
    decreases i,
{
    if i > 0 {
        lemma_pow128_positive((i - 1) as nat);
    }
}

/// Without an end among the first bytes there is nothing to read.
proof fn lemma_parse_without_end(s: Seq<u8>, i: nat, max: nat, last: nat)
    requires
        i <= s.len(),
        s.len() < max,
        forall|j: int| 0 <= j < s.len() ==> #[trigger] s[j] >= 128,
    ensures
        varint_parse_from(s, i, max, last) is Eof,
    decreases max - i,
{
    if i < s.len() {
        lemma_parse_without_end(s, i + 1, max, last);
    }
}

/// Law: a varint is read as the number that its groups make up, where that fits in
/// the integer and its bytes are no more than the integer can take; otherwise as too
/// large. What lies behind it does not matter.
pub proof fn law_varint_is_its_groups(s: Seq<u8>, n: nat)
    requires
        varint_ends_at(s, n),
    ensures
        ({
            let v = groups_value(s.subrange(0, n as int));
            &&& varint_parse_u32(s) == (if n <= 5 && v < 0x1_0000_0000 {
                VarintParse::Done(v, n)
            } else {
                VarintParse::Overflow
            })
            &&& varint_parse_u64(s) == (if n <= 10 && v < 0x1_0000_0000_0000_0000 {
                VarintParse::Done(v, n)
            } else {
                VarintParse::Overflow
            })
        }),
{
    reveal_with_fuel(pow128, 10);
    lemma_parse_by_groups(s, n, 0, 5, 15);
    lemma_parse_by_groups(s, n, 0, 10, 1);
    assert(16 * pow128(4) == 0x1_0000_0000);
    assert(2 * pow128(9) == 0x1_0000_0000_0000_0000);
}

/// Law: a varint that is cut off is not read, however many of its bytes are left.
pub proof fn law_cut_varint_is_not_read(s: Seq<u8>)
    requires
        forall|i: int| 0 <= i < s.len() ==> #[trigger] s[i] >= 128,
    ensures
        s.len() < 5 ==> varint_parse_u32(s) is Eof,
        s.len() < 10 ==> varint_parse_u64(s) is Eof,
{
    if s.len() < 5 {
        lemma_parse_without_end(s, 0, 5, 15);
    }
    if s.len() < 10 {
        lemma_parse_without_end(s, 0, 10, 1);
    }
}

/// Law: the error of a varint that is cut off tells how many bytes the longest would
/// still take.
pub proof fn law_cut_varint_tells_what_is_missing(len: nat, max: nat)
    requires
        len <= max <= 10,
    ensures
        varint_error(VarintParse::Eof, len, max) matches DecodeError::UnexpectedEof { needed }
            && needed + len == max,
        varint_error(VarintParse::Overflow, len, max) matches DecodeError::VarintOverflow {
            max_bytes,
        } && max_bytes == max,
{
}

/// What is read is read from a varint.
proof fn lemma_parsed_ends(s: Seq<u8>, i: nat, max: nat, last: nat)
    ensures
        varint_parse_from(s, i, max, last) matches VarintParse::Done(v, n) ==> i < n <= s.len()
            && s[n - 1] < 128 && forall|j: int| i <= j < n - 1 ==> #[trigger] s[j] >= 128,
    decreases max - i,
{
    if i < max && i < s.len() {
        lemma_parsed_ends(s, i + 1, max, last);
    }
}

/// Law: what was read of some bytes is read again where more bytes follow.
pub proof fn law_varint_is_read_alike(s: Seq<u8>, more: Seq<u8>)
    ensures
        varint_parse_u32(s) is Done ==> varint_parse_u32(s + more) == varint_parse_u32(s),
        varint_parse_u64(s) is Done ==> varint_parse_u64(s + more) == varint_parse_u64(s),
{
    lemma_parsed_ends(s, 0, 5, 15);
    lemma_parsed_ends(s, 0, 10, 1);
    if let VarintParse::Done(v, n) = varint_parse_u32(s) {
        assert((s + more).subrange(0, n as int) =~= s.subrange(0, n as int));
        assert(varint_ends_at(s, n) && varint_ends_at(s + more, n));
        law_varint_is_its_groups(s, n);
        law_varint_is_its_groups(s + more, n);
    }
    if let VarintParse::Done(v, n) = varint_parse_u64(s) {
        assert((s + more).subrange(0, n as int) =~= s.subrange(0, n as int));
        assert(varint_ends_at(s, n) && varint_ends_at(s + more, n));
        law_varint_is_its_groups(s, n);
        law_varint_is_its_groups(s + more, n);
    }
}

/// Returns the number of bytes required to encode `value` as a varint.
pub fn varint_u64_len(value: u64) -> (n: usize)
    ensures
        n == varint(value as nat).len(),
        1 <= n <= MAX_VARINT_U64_BYTES,
{
    let mut v: u64 = value;
    let mut n: usize = 1;
    proof {
        lemma_varint_len(value as nat);
    }
    while v >= 128
        invariant
            1 <= n,
            n + varint(v as nat).len() == 1 + varint(value as nat).len(),
            varint(value as nat).len() <= 10,
        decreases v,
    {
        proof {
            lemma_varint_len(v as nat);
            lemma_varint_len(v as nat / 128);
        }
        v = v / 128;
        n += 1;
    }
    proof {
        lemma_varint_len(v as nat);
    }
    n
}

/// Encode `value` into `buf`, returning the number of bytes written.
///
/// Returns `None` if `buf` is too short; the bytes that do fit have then been
/// written.
pub fn encode_u64(value: u64, buf: &mut [u8]) -> (r: Option<usize>)
    ensures
        final(buf)@.len() == old(buf)@.len(),
        r is Some <==> varint(value as nat).len() <= old(buf)@.len(),
        r matches Some(n) ==> n == varint(value as nat).len() && n <= MAX_VARINT_U64_BYTES
            && final(buf)@ == varint(value as nat) + old(buf)@.subrange(
            n as int,
            old(buf)@.len() as int,
        ),
        r is None ==> final(buf)@ == varint(value as nat).subrange(0, old(buf)@.len() as int),
{
    let mut v: u64 = value;
    let mut i: usize = 0;
    let ghost form = varint(value as nat);
    let ghost before = buf@;
    proof {
        lemma_varint_len(value as nat);
        assert(form.subrange(0, form.len() as int) =~= form);
    }
    while v >= 0x80
        invariant
            form == varint(value as nat),
            form.len() <= 10,
            i < form.len(),
            i <= buf@.len(),
            buf@.len() == before.len(),
            form.subrange(i as int, form.len() as int) == varint(v as nat),
            forall|j: int| 0 <= j < i ==> buf@[j] == form[j],
            forall|j: int| i <= j < buf@.len() ==> buf@[j] == before[j],
            old(buf)@ == before,
        decreases v,
    {
        proof {
            lemma_varint_len(v as nat);
            lemma_varint_len(v as nat / 128);
            assert(form[i as int] == varint(v as nat)[0]);
        }
        if i >= buf.len() {
            assert(buf@ =~= form.subrange(0, buf@.len() as int));
            return None;
        }
        buf[i] = (v % 128 + 128) as u8;
        proof {
            let w = v as nat;
            let tail = form.subrange(i as int, form.len() as int);
            assert(form.subrange(i + 1, form.len() as int) =~= tail.subrange(
                1,
                tail.len() as int,
            ));
            assert(varint(w).subrange(1, varint(w).len() as int) =~= varint(w / 128));
        }
        v = v / 128;
        i += 1;
    }
    proof {
        lemma_varint_len(v as nat);
        assert(form[i as int] == varint(v as nat)[0]);
        assert(form.subrange(i as int, form.len() as int).len() == 1);
    }
    if i >= buf.len() {
        assert(buf@ =~= form.subrange(0, buf@.len() as int));
        return None;
    }
    buf[i] = v as u8;
    assert(buf@ =~= form + before.subrange(i + 1, before.len() as int));
    Some(i + 1)
}

/// Encode `value` into `buf`, returning the number of bytes written.
pub fn encode_u32(value: u32, buf: &mut [u8]) -> (r: Option<usize>)
    ensures
        final(buf)@.len() == old(buf)@.len(),
        r is Some <==> varint(value as nat).len() <= old(buf)@.len(),
        r matches Some(n) ==> n == varint(value as nat).len() && n <= MAX_VARINT_U32_BYTES
            && final(buf)@ == varint(value as nat) + old(buf)@.subrange(
            n as int,
            old(buf)@.len() as int,
        ),
        r is None ==> final(buf)@ == varint(value as nat).subrange(0, old(buf)@.len() as int),
{
    proof {
        lemma_varint_len(value as nat);
    }
    encode_u64(value as u64, buf)
}

/// Append the varint form of `value` to `out`.
pub fn push_varint(out: &mut Vec<u8>, value: u64)
    ensures
        final(out)@ == old(out)@ + varint(value as nat),
{
    let mut v: u64 = value;
    let ghost start = out@;
    while v >= 0x80
        invariant
            out@ + varint(v as nat) == start + varint(value as nat),
        decreases v,
    {
        let ghost before = out@;
        out.push((v % 128 + 128) as u8);
        proof {
            let w = v as nat;
            assert(varint(w) =~= seq![(w % 128 + 128) as u8] + varint(w / 128));
            assert(out@ + varint(w / 128) =~= before + varint(w));
        }
        v = v / 128;
    }
    out.push(v as u8);
    assert(out@ =~= start + varint(value as nat)) by {
        assert(varint(v as nat) =~= seq![v as u8]);
    }
}

/// Decode a varint of at most `max` bytes whose `max`-th group is at most
/// `last`.
fn decode_bounded(input: &[u8], max: usize, last: u64) -> (r: core::result::Result<
    (u64, usize),
    DecodeError,
>)
    requires
        (max == 10 && last == 1) || (max == 5 && last == 15),
    ensures
        match varint_parse_from(input@, 0, max as nat, last as nat) {
            VarintParse::Done(v, n) => r is Ok && r->Ok_0.0 == v && r->Ok_0.1 == n && (max == 5
                ==> v < 0x1_0000_0000),
            p => r is Err && r->Err_0 == varint_error(p, input@.len(), max as nat),
        },
{
    let ghost whole = varint_parse_from(input@, 0, max as nat, last as nat);
    let mut result: u64 = 0;
    let mut scale: u64 = 1;
    let mut i: usize = 0;
    proof {
        lemma_parse_bounds(input@, 0, max as nat, last as nat);
    }
    while i < max && i < input.len()
        invariant
            i <= max,
            i <= input@.len(),
            (max == 10 && last == 1) || (max == 5 && last == 15),
            whole == varint_parse_from(input@, 0, max as nat, last as nat),
            i < max ==> scale == pow128(i as nat) && result < scale,
            match varint_parse_from(input@, i as nat, max as nat, last as nat) {
                VarintParse::Done(v, n) => i < max ==> whole == VarintParse::Done(
                    (result + scale * v) as nat,
                    n,
                ),
                p => whole == p,
            },
        decreases max - i,
    {
        let byte: u8 = input[i];
        let group: u64 = (byte % 128) as u64;
        proof {
            lemma_pow128(i as nat);
        }
        if i == max - 1 && group > last {
            return Err(DecodeError::VarintOverflow { max_bytes: max });
        }
        assert(group * scale <= 127 * scale) by (nonlinear_arith)
            requires
                group <= 127,
        ;
        assert(i == max - 1 ==> group * scale <= last * scale) by (nonlinear_arith)
            requires
                i == max - 1 ==> group <= last,
        ;
        assert(scale * group == group * scale) by (nonlinear_arith);
        proof {
            if i == 9 {
                assert(scale == 0x8000_0000_0000_0000);
            }
            if max == 5 {
                assert(last * scale == 15 * scale) by (nonlinear_arith)
                    requires
                        last == 15,
                ;
            }
        }
        if byte < 128 {
            return Ok((result + group * scale, i + 1));
        }
        result = result + group * scale;
        proof {
            match varint_parse_from(input@, (i + 1) as nat, max as nat, last as nat) {
                VarintParse::Done(v, n) => {
                    lemma_parse_bounds(input@, (i + 1) as nat, max as nat, last as nat);
                    assert(scale * (group + 128 * v) == scale * group + (scale * 128) * v)
                        by (nonlinear_arith);
                },
                _ => {},
            }
        }
        if i + 1 < max {
            scale = scale * 128;
        }
        i += 1;
    }
    if input.len() < max {
        Err(DecodeError::UnexpectedEof { needed: max - input.len() })
    } else {
        Err(DecodeError::VarintOverflow { max_bytes: max })
    }
}

/// 128 to the power `i`.
spec fn pow128(i: nat) -> nat
    decreases i,
{
    if i == 0 {
        1
    } else {
        128 * pow128((i - 1) as nat)
    }
}

proof fn lemma_pow128(i: nat)
    requires
        i <= 9,
    ensures
        pow128(i + 1) == 128 * pow128(i),
        i <= 8 ==> pow128(i) <= 0x100_0000_0000_0000,
        i <= 3 ==> pow128(i) <= 0x20_0000,
        i == 4 ==> pow128(i) == 0x1000_0000,
        i == 9 ==> pow128(i) == 0x8000_0000_0000_0000,
{
    reveal_with_fuel(pow128, 11);
}

/// Decode a `u64` varint from the front of `input`.
///
/// Returns the decoded value and the consumed byte count. The input may end
/// before the terminator ([`DecodeError::UnexpectedEof`]), or hold ten bytes
/// without one or a tenth byte beyond `u64::MAX`
/// ([`DecodeError::VarintOverflow`]).
pub fn decode_u64(input: &[u8]) -> (r: Result<(u64, usize)>)
    ensures
        match varint_parse_u64(input@) {
            VarintParse::Done(v, n) => r matches Ok(p) && p.0 == v && p.1 == n && 1 <= n
                <= input@.len() && n <= 10,
            p => r == Err::<(u64, usize), Error>(
                Error::Decode(varint_error(p, input@.len(), 10)),
            ),
        },
{
    proof {
        lemma_parse_bounds(input@, 0, 10, 1);
    }
    match decode_bounded(input, MAX_VARINT_U64_BYTES, 1) {
        Ok(p) => Ok(p),
        Err(e) => Err(Error::Decode(e)),
    }
}

/// Decode a `u32` varint from the front of `input`. Errors mirror
/// [`decode_u64`] but with a 5-byte limit.
pub fn decode_u32(input: &[u8]) -> (r: Result<(u32, usize)>)
    ensures
        match varint_parse_u32(input@) {
            VarintParse::Done(v, n) => r matches Ok(p) && p.0 == v && p.1 == n && 1 <= n
                <= input@.len() && n <= 5,
            p => r == Err::<(u32, usize), Error>(Error::Decode(varint_error(p, input@.len(), 5))),
        },
{
    proof {
        lemma_parse_bounds(input@, 0, 5, 15);
    }
    match decode_bounded(input, MAX_VARINT_U32_BYTES, 15) {
        Ok(p) => Ok((p.0 as u32, p.1)),
        Err(e) => Err(Error::Decode(e)),
    }
}

/// Decode and require the varint to be canonical: a zero terminator byte
/// after a continuation byte means the value could have been encoded one byte
/// shorter.
pub fn decode_u64_canonical(input: &[u8]) -> (r: Result<(u64, usize)>)
    ensures
        match varint_parse_u64(input@) {
            VarintParse::Done(v, n) => if n > 1 && input@[n - 1] == 0 {
                r == Err::<(u64, usize), Error>(Error::Decode(DecodeError::NonCanonicalVarint))
            } else {
                r matches Ok(p) && p.0 == v && p.1 == n
            },
            p => r == Err::<(u64, usize), Error>(
                Error::Decode(varint_error(p, input@.len(), 10)),
            ),
        },
{
    match decode_u64(input) {
        Err(e) => Err(e),
        Ok(p) => {
            if p.1 > 1 && input[p.1 - 1] == 0 {
                return Err(Error::Decode(DecodeError::NonCanonicalVarint));
            }
            Ok(p)
        },
    }
}

} // verus!
