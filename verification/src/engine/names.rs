//! Names of the files in a data directory.
//!
//! - `wal-NNNNNNNN.log`: a WAL segment.
//! - `NNNNNNNN.sst`: an SSTable.
//!
//! `NNNNNNNN` is the file's number in decimal, padded to eight digits. The
//! two kinds draw their numbers from one counter.
use vstd::prelude::*;
use vstd::string::*;

use crate::encoding::text::{
    chars_of, digit_char, digits, ends_with, has_prefix, has_suffix, padded, padded_string,
    starts_with,
};
use crate::io::vfs::join;

verus! {

/// Name of WAL segment `id`.
pub open spec fn wal_name(id: u64) -> Seq<char> {
    "wal-"@ + padded(id as nat, 10, 8) + ".log"@
}

/// Name of SSTable `id`.
pub open spec fn sst_name(id: u64) -> Seq<char> {
    padded(id as nat, 10, 8) + ".sst"@
}

/// Path of the file `name` in `dir`.
pub open spec fn path_in(dir: Seq<char>, name: Seq<char>) -> Seq<char> {
    dir + "/"@ + name
}

/// Path of WAL segment `id` in `dir`.
pub open spec fn wal_path(dir: Seq<char>, id: u64) -> Seq<char> {
    path_in(dir, wal_name(id))
}

/// Path of SSTable `id` in `dir`.
pub open spec fn table_path(dir: Seq<char>, id: u64) -> Seq<char> {
    path_in(dir, sst_name(id))
}

/// `c` is a decimal digit.
pub open spec fn is_digit(c: char) -> bool {
    '0' <= c && c <= '9'
}

/// The number that the digits of `s` write.
pub open spec fn number(s: Seq<char>) -> nat
    decreases s.len(),
{
    if s.len() == 0 {
        0
    } else {
        (number(s.drop_last()) * 10 + (s.last() as nat - '0' as nat)) as nat
    }
}

/// Every character is a digit, and there is one.
pub open spec fn all_digits(s: Seq<char>) -> bool {
    s.len() > 0 && forall|i: int| 0 <= i < s.len() ==> is_digit(#[trigger] s[i])
}

/// `s` without one leading plus sign.
pub open spec fn unsigned(s: Seq<char>) -> Seq<char> {
    if s.len() > 0 && s[0] == '+' {
        s.subrange(1, s.len() as int)
    } else {
        s
    }
}

/// What `s` reads as: a decimal number, with or without a plus sign, that
/// fits in 64 bits.
pub open spec fn parse_number(s: Seq<char>) -> Option<u64> {
    let d = unsigned(s);
    if all_digits(d) && number(d) <= u64::MAX {
        Some(number(d) as u64)
    } else {
        None
    }
}

/// The middle of `name`, between `prefix` and `suffix`.
pub open spec fn between(name: Seq<char>, prefix: Seq<char>, suffix: Seq<char>) -> Option<
    Seq<char>,
> {
    if starts_with(name, prefix) && ends_with(
        name.subrange(prefix.len() as int, name.len() as int),
        suffix,
    ) {
        Some(name.subrange(prefix.len() as int, name.len() - suffix.len()))
    } else {
        None
    }
}

/// The segment number in a WAL file's name.
pub open spec fn parse_wal_name(name: Seq<char>) -> Option<u64> {
    match between(name, "wal-"@, ".log"@) {
        Some(middle) => parse_number(middle),
        None => None,
    }
}

/// The table number in an SSTable's name.
pub open spec fn parse_sst(name: Seq<char>) -> Option<u64> {
    match between(name, Seq::empty(), ".sst"@) {
        Some(middle) => parse_number(middle),
        None => None,
    }
}

// ----- Lemmas -----

proof fn lemma_digits(n: nat)
    ensures
        all_digits(digits(n, 10)),
        number(digits(n, 10)) == n,
    decreases n,
{
    let d = digits(n, 10);
    if n < 10 {
        assert(d.drop_last() =~= Seq::empty());
        assert(number(d.drop_last()) == 0);
    } else {
        lemma_digits(n / 10);
        let front = digits(n / 10, 10);
        assert(d == front.push(digit_char(n % 10)));
        assert(d.drop_last() =~= front);
        assert forall|i: int| 0 <= i < d.len() implies is_digit(#[trigger] d[i]) by {
            if i < front.len() {
                assert(d[i] == front[i]);
            }
        }
    }
}

proof fn lemma_leading_zeros(k: nat, d: Seq<char>)
    ensures
        number(Seq::new(k, |i: int| '0') + d) == number(d),
    decreases d.len(), k,
{
    let z = Seq::new(k, |i: int| '0');
    if d.len() > 0 {
        lemma_leading_zeros(k, d.drop_last());
        assert((z + d).drop_last() =~= z + d.drop_last());
        assert((z + d).last() == d.last());
    } else if k > 0 {
        let less = Seq::new((k - 1) as nat, |i: int| '0');
        lemma_leading_zeros((k - 1) as nat, d);
        assert(less + d =~= less);
        assert(z + d =~= z);
        assert(z.drop_last() =~= less);
    } else {
        assert(z + d =~= d);
    }
}

/// A padded number reads as itself.
proof fn lemma_padded(id: u64)
    ensures
        all_digits(padded(id as nat, 10, 8)),
        parse_number(padded(id as nat, 10, 8)) == Some(id),
{
    let d = digits(id as nat, 10);
    let p = padded(id as nat, 10, 8);
    lemma_digits(id as nat);
    if d.len() < 8 {
        lemma_leading_zeros((8 - d.len()) as nat, d);
        assert forall|i: int| 0 <= i < p.len() implies is_digit(#[trigger] p[i]) by {
            if i >= 8 - d.len() {
                assert(p[i] == d[i - (8 - d.len())]);
            }
        }
    }
    assert(is_digit(p[0]));
    assert(unsigned(p) == p);
}

/// What is read back from the names.
pub proof fn law_names_round_trip(id: u64)
    ensures
        parse_wal_name(wal_name(id)) == Some(id),
        parse_sst(sst_name(id)) == Some(id),
{
    lemma_padded(id);
    let p = padded(id as nat, 10, 8);
    reveal_strlit("wal-");
    reveal_strlit(".log");
    reveal_strlit(".sst");
    let w = wal_name(id);
    assert(w.subrange(0, 4) =~= "wal-"@);
    let behind = w.subrange(4, w.len() as int);
    assert(behind.subrange(behind.len() - 4, behind.len() as int) =~= ".log"@);
    assert(w.subrange(4, w.len() - 4) =~= p);
    let s = sst_name(id);
    assert(s.subrange(0, 0) =~= Seq::<char>::empty());
    assert(s.subrange(0, s.len() as int) =~= s);
    assert(s.subrange(s.len() - 4, s.len() as int) =~= ".sst"@);
    assert(s.subrange(0, s.len() - 4) =~= p);
}

/// The digits of `n`, where it has `k` of them at most.
proof fn lemma_digits_len(n: nat)
    requires
        n < 100_000_000,
    ensures
        1 <= digits(n, 10).len() <= 8,
{
    reveal_with_fuel(digits, 9);
}

/// Law: the names of files numbered below a hundred million all have one length,
/// eight digits and what stands around them; those of other files are no shorter.
pub proof fn law_names_have_one_length(id: u64)
    ensures
        wal_name(id).len() >= 16,
        sst_name(id).len() >= 12,
        id < 100_000_000 ==> wal_name(id).len() == 16 && sst_name(id).len() == 12,
{
    reveal_strlit("wal-");
    reveal_strlit(".log");
    reveal_strlit(".sst");
    if id < 100_000_000 {
        lemma_digits_len(id as nat);
    }
}

/// Law: a name is read as a file's only where it has the right letters around a
/// number, which is made of digits, with or without a plus sign.
pub proof fn law_only_numbered_names_are_read(name: Seq<char>)
    ensures
        parse_wal_name(name) matches Some(id) ==> ({
            let middle = name.subrange(4, name.len() - 4);
            &&& name.len() > 8
            &&& name == "wal-"@ + middle + ".log"@
            &&& forall|i: int|
                1 <= i < middle.len() || i == 0 && middle[0] != '+' ==> '0' <= #[trigger] middle[i]
                    <= '9'
            &&& number(unsigned(middle)) == id
        }),
        parse_sst(name) matches Some(id) ==> ({
            let middle = name.subrange(0, name.len() - 4);
            &&& name.len() > 4
            &&& name == middle + ".sst"@
            &&& forall|i: int|
                1 <= i < middle.len() || i == 0 && middle[0] != '+' ==> '0' <= #[trigger] middle[i]
                    <= '9'
            &&& number(unsigned(middle)) == id
        }),
{
    reveal_strlit("wal-");
    reveal_strlit(".log");
    reveal_strlit(".sst");
    if parse_wal_name(name) is Some {
        let middle = name.subrange(4, name.len() - 4);
        let behind = name.subrange(4, name.len() as int);
        assert(behind.subrange(behind.len() - 4, behind.len() as int) =~= name.subrange(
            name.len() - 4,
            name.len() as int,
        ));
        assert(name =~= "wal-"@ + middle + ".log"@);
        lemma_unsigned_digits(middle);
    }
    if parse_sst(name) is Some {
        let middle = name.subrange(0, name.len() - 4);
        assert(name.subrange(0, name.len() as int) =~= name);
        assert(name =~= middle + ".sst"@);
        lemma_unsigned_digits(middle);
    }
}

/// Law: a plus sign in front of digits changes nothing; without digits there is no
/// number.
pub proof fn law_plus_sign_is_passed_over(s: Seq<char>)
    requires
        all_digits(s),
    ensures
        parse_number(seq!['+'] + s) == parse_number(s),
        parse_number(seq!['+']) is None,
        parse_number(Seq::empty()) is None,
{
    let signed = seq!['+'] + s;
    assert(signed.subrange(1, signed.len() as int) =~= s);
    assert(is_digit(s[0]));
    assert(unsigned(seq!['+']) =~= Seq::empty());
}

/// What is read as a number is digits, but for a sign.
proof fn lemma_unsigned_digits(s: Seq<char>)
    requires
        all_digits(unsigned(s)),
    ensures
        s.len() > 0,
        forall|i: int| 1 <= i < s.len() || i == 0 && s[0] != '+' ==> '0' <= #[trigger] s[i] <= '9',
{
    let d = unsigned(s);
    assert forall|i: int| 1 <= i < s.len() || i == 0 && s[0] != '+' implies '0' <= #[trigger] s[i]
        <= '9' by {
        let j = if s.len() > 0 && s[0] == '+' {
            i - 1
        } else {
            i
        };
        assert(is_digit(d[j]));
    }
}

/// The names hold no slash, and a name of one kind is none of the other.
pub proof fn lemma_name_shape(id: u64)
    ensures
        !wal_name(id).contains('/'),
        !sst_name(id).contains('/'),
        parse_sst(wal_name(id)) is None,
        parse_wal_name(sst_name(id)) is None,
{
    lemma_padded(id);
    let p = padded(id as nat, 10, 8);
    reveal_strlit("wal-");
    reveal_strlit(".log");
    reveal_strlit(".sst");
    let w = wal_name(id);
    let s = sst_name(id);
    assert(!w.contains('/')) by {
        assert forall|i: int| 0 <= i < w.len() implies w[i] != '/' by {
            if 4 <= i < 4 + p.len() {
                assert(w[i] == p[i - 4]);
                assert(is_digit(p[i - 4]));
            }
        }
    }
    assert(!s.contains('/')) by {
        assert forall|i: int| 0 <= i < s.len() implies s[i] != '/' by {
            if i < p.len() {
                assert(s[i] == p[i]);
                assert(is_digit(p[i]));
            }
        }
    }
    assert(w.subrange(0, w.len() as int) =~= w);
    assert(w.subrange(w.len() - 4, w.len() as int)[1] == 'l');
    assert(".sst"@[1] == 's');
    assert(s[0] == p[0] && is_digit(p[0]));
    assert("wal-"@[0] == 'w');
    if starts_with(s, "wal-"@) {
        assert(s.subrange(0, 4)[0] == s[0]);
    }
}

/// Different files have different paths.
pub proof fn lemma_paths_differ(dir: Seq<char>, a: u64, b: u64)
    ensures
        wal_path(dir, a) == wal_path(dir, b) ==> a == b,
        table_path(dir, a) == table_path(dir, b) ==> a == b,
        wal_path(dir, a) != table_path(dir, b),
{
    law_names_round_trip(a);
    law_names_round_trip(b);
    lemma_name_shape(a);
    lemma_name_shape(b);
    lemma_path_names(dir, wal_name(a), wal_name(b));
    lemma_path_names(dir, sst_name(a), sst_name(b));
    lemma_path_names(dir, wal_name(a), sst_name(b));
}

/// One path has one name behind the directory.
pub proof fn lemma_path_names(dir: Seq<char>, a: Seq<char>, b: Seq<char>)
    ensures
        path_in(dir, a) == path_in(dir, b) ==> a == b,
{
    let n = (dir + "/"@).len() as int;
    let x = path_in(dir, a);
    let y = path_in(dir, b);
    assert(x.subrange(n, x.len() as int) =~= a);
    assert(y.subrange(n, y.len() as int) =~= b);
}

/// A path in a directory whose name does not end with a slash is what the
/// listing of the directory refers to.
pub proof fn lemma_path_joins(dir: Seq<char>, name: Seq<char>)
    requires
        dir.len() > 0 ==> dir.last() != '/',
    ensures
        path_in(dir, name) == join(dir, name),
{
    reveal_strlit("/");
    assert(dir + "/"@ =~= dir.push('/'));
}

proof fn lemma_number_grows(s: Seq<char>, n: int)
    requires
        0 <= n <= s.len(),
        forall|i: int| 0 <= i < s.len() ==> is_digit(#[trigger] s[i]),
    ensures
        number(s.subrange(0, n)) <= number(s),
    decreases s.len() - n,
{
    if n == s.len() {
        assert(s.subrange(0, n) =~= s);
    } else {
        lemma_number_grows(s, n + 1);
        let next = s.subrange(0, n + 1);
        assert(next.drop_last() =~= s.subrange(0, n));
        assert(is_digit(s[n]));
        assert(next.last() == s[n]);
        assert(number(next) == number(s.subrange(0, n)) * 10 + (s[n] as nat - '0' as nat));
    }
}

// ----- Executable part -----

/// Path of WAL segment `id` in `dir`.
pub fn wal_segment_path(dir: &str, id: u64) -> (p: String)
    ensures
        p@ == wal_path(dir@, id),
{
    let mut p = String::new();
    p.append(dir);
    p.append("/");
    p.append("wal-");
    p.append(padded_string(id, 10, 8).as_str());
    p.append(".log");
    assert(p@ =~= wal_path(dir@, id));
    p
}

/// Path of SSTable `id` in `dir`.
pub fn sst_path(dir: &str, id: u64) -> (p: String)
    ensures
        p@ == table_path(dir@, id),
{
    let mut p = String::new();
    p.append(dir);
    p.append("/");
    p.append(padded_string(id, 10, 8).as_str());
    p.append(".sst");
    assert(p@ =~= table_path(dir@, id));
    p
}

fn slice_of(v: &Vec<char>, from: usize, to: usize) -> (r: Vec<char>)
    requires
        from <= to <= v@.len(),
    ensures
        r@ == v@.subrange(from as int, to as int),
{
    let mut r: Vec<char> = Vec::new();
    let mut i: usize = from;
    while i < to
        invariant
            from <= i <= to <= v@.len(),
            r@ == v@.subrange(from as int, i as int),
        decreases to - i,
    {
        r.push(v[i]);
        i += 1;
        assert(r@ =~= v@.subrange(from as int, i as int));
    }
    r
}

fn read_number(cs: &Vec<char>) -> (r: Option<u64>)
    ensures
        r == parse_number(cs@),
{
    let from: usize = if cs.len() > 0 && cs[0] == '+' {
        1
    } else {
        0
    };
    let d = slice_of(cs, from, cs.len());
    assert(cs@.subrange(0, cs@.len() as int) =~= cs@);
    assert(d@ == unsigned(cs@));
    if d.len() == 0 {
        return None;
    }
    let mut i: usize = 0;
    while i < d.len()
        invariant
            i <= d@.len(),
            d@ == unsigned(cs@),
            forall|j: int| 0 <= j < i ==> is_digit(#[trigger] d@[j]),
        decreases d@.len() - i,
    {
        if d[i] < '0' || d[i] > '9' {
            assert(!is_digit(d@[i as int]));
            return None;
        }
        i += 1;
    }
    let mut value: u64 = 0;
    i = 0;
    while i < d.len()
        invariant
            i <= d@.len(),
            d@ == unsigned(cs@),
            forall|j: int| 0 <= j < d@.len() ==> is_digit(#[trigger] d@[j]),
            value == number(d@.subrange(0, i as int)),
        decreases d@.len() - i,
    {
        assert(is_digit(d@[i as int]));
        let digit: u64 = (d[i] as u32 - '0' as u32) as u64;
        let ghost next = d@.subrange(0, i + 1);
        proof {
            assert(next.drop_last() =~= d@.subrange(0, i as int));
            assert(next.last() == d@[i as int]);
            assert(number(next) == value * 10 + digit);
            lemma_number_grows(d@, i + 1);
        }
        if value > (u64::MAX - digit) / 10 {
            return None;
        }
        value = value * 10 + digit;
        i += 1;
    }
    assert(d@.subrange(0, i as int) =~= d@);
    Some(value)
}

/// The segment number in a WAL file's name.
pub fn parse_wal_segment_name(name: &str) -> (r: Option<u64>)
    ensures
        r == parse_wal_name(name@),
{
    let cs = chars_of(name);
    let prefix = chars_of("wal-");
    let suffix = chars_of(".log");
    if !has_prefix(&cs, &prefix) {
        return None;
    }
    let behind = slice_of(&cs, prefix.len(), cs.len());
    if !has_suffix(&behind, &suffix) {
        return None;
    }
    let middle = slice_of(&cs, prefix.len(), cs.len() - suffix.len());
    read_number(&middle)
}

/// The table number in an SSTable's name.
pub fn parse_sst_name(name: &str) -> (r: Option<u64>)
    ensures
        r == parse_sst(name@),
{
    let cs = chars_of(name);
    let suffix = chars_of(".sst");
    proof {
        assert(cs@.subrange(0, 0) =~= Seq::<char>::empty());
        assert(cs@.subrange(0, cs@.len() as int) =~= cs@);
    }
    if !has_suffix(&cs, &suffix) {
        return None;
    }
    let middle = slice_of(&cs, 0, cs.len() - suffix.len());
    read_number(&middle)
}

} // verus!
