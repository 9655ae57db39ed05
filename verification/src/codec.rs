//! Entry codec: the bidirectional mapping between a dropped entry's
//! (timestamp, serial, original absolute path) and the single flat filename
//! it is stored under in the holding directory.
//!
//! The stored name is `{timestamp}_{path}`, or `{timestamp}.{serial}_{path}`
//! when a serial greater than zero is needed to keep two drops of the same
//! path within the same second apart. The path follows the first `_`
//! verbatim, so decoding splits at the first separator only; the numeric
//! prefix can never contain one.

use vstd::arithmetic::div_mod::lemma_fundamental_div_mod;
use vstd::prelude::*;

verus! {

/// Separates the numeric prefix from the original path in a stored name.
pub const SEPARATOR: u8 = 95;

/// Separates the timestamp from the collision serial inside the prefix.
pub const SERIAL_MARK: u8 = 46;

/// A stored name taken apart: when the entry was dropped, which of several
/// same-second drops of the same path it is, and where it came from.
#[derive(Debug, PartialEq, Eq)]
pub struct DroppedEntry {
    pub drop_timestamp: u64,
    pub serial: u64,
    pub original_path: Vec<u8>,
}

pub open spec fn is_digit(b: u8) -> bool {
    48 <= b <= 57
}

pub open spec fn digit_of(n: nat) -> u8
    recommends
        n < 10,
{
    (48 + n) as u8
}

pub open spec fn digit_val(b: u8) -> nat
    recommends
        is_digit(b),
{
    (b - 48) as nat
}

pub open spec fn is_digits(s: Seq<u8>) -> bool {
    forall|i: int| 0 <= i < s.len() ==> is_digit(s[i])
}

/// Value of a digit string, most significant digit first.
pub open spec fn digits_val(s: Seq<u8>) -> nat
    decreases s.len(),
{
    if s.len() == 0 {
        0
    } else {
        digits_val(s.drop_last()) * 10 + digit_val(s.last())
    }
}

/// The decimal digit string of `n`, without leading zeroes.
pub open spec fn dec_digits(n: nat) -> Seq<u8>
    decreases n,
{
    if n < 10 {
        seq![digit_of(n)]
    } else {
        dec_digits(n / 10).push(digit_of(n % 10))
    }
}

/// A non-empty, all-digit string whose value fits the timestamp type.
pub open spec fn valid_digits(s: Seq<u8>) -> bool {
    &&& s.len() > 0
    &&& is_digits(s)
    &&& digits_val(s) <= u64::MAX
}

/// `i` is the index of the first occurrence of `b` in `s`.
pub open spec fn first_index_of(s: Seq<u8>, b: u8, i: int) -> bool {
    &&& 0 <= i < s.len()
    &&& s[i] == b
    &&& forall|j: int| 0 <= j < i ==> s[j] != b
}

pub open spec fn contains_byte(s: Seq<u8>, b: u8) -> bool {
    exists|i: int| 0 <= i < s.len() && s[i] == b
}

/// The prefix of a stored name between timestamp and separator: empty for
/// serial zero, `.{serial}` otherwise.
pub open spec fn serial_part(serial: u64) -> Seq<u8> {
    if serial == 0 {
        Seq::empty()
    } else {
        seq![SERIAL_MARK] + dec_digits(serial as nat)
    }
}

/// The stored name of an entry: `{timestamp}[.{serial}]_{path}`.
pub open spec fn encoded_name(drop_timestamp: u64, serial: u64, path: Seq<u8>) -> Seq<u8> {
    dec_digits(drop_timestamp as nat) + serial_part(serial) + seq![SEPARATOR] + path
}

/// The numeric prefix of a stored name, parsed: `{timestamp}` or
/// `{timestamp}.{serial}`, split at the first serial mark.
pub open spec fn spec_parse_prefix(prefix: Seq<u8>) -> Option<(u64, u64)> {
    if contains_byte(prefix, SERIAL_MARK) {
        let k = choose|k: int| first_index_of(prefix, SERIAL_MARK, k);
        let ts = prefix.take(k);
        let ser = prefix.skip(k + 1);
        if valid_digits(ts) && valid_digits(ser) {
            Some((digits_val(ts) as u64, digits_val(ser) as u64))
        } else {
            None
        }
    } else {
        if valid_digits(prefix) {
            Some((digits_val(prefix) as u64, 0u64))
        } else {
            None
        }
    }
}

/// A stored name decoded: split at the first separator, numeric prefix
/// parsed, path taken verbatim. `None` marks a foreign or unparseable name.
pub open spec fn spec_decode(name: Seq<u8>) -> Option<(u64, u64, Seq<u8>)> {
    if contains_byte(name, SEPARATOR) {
        let i = choose|i: int| first_index_of(name, SEPARATOR, i);
        match spec_parse_prefix(name.take(i)) {
            Some(tn) => Some((tn.0, tn.1, name.skip(i + 1))),
            None => None,
        }
    } else {
        None
    }
}

pub proof fn lemma_first_index_unique(s: Seq<u8>, b: u8, i1: int, i2: int)
    requires
        first_index_of(s, b, i1),
        first_index_of(s, b, i2),
    ensures
        i1 == i2,
{
    if i1 < i2 {
        assert(s[i1] != b);
    }
    if i2 < i1 {
        assert(s[i2] != b);
    }
}

pub proof fn lemma_dec_digits_shape(n: nat)
    ensures
        dec_digits(n).len() >= 1,
        is_digits(dec_digits(n)),
    decreases n,
{
    if n >= 10 {
        lemma_dec_digits_shape(n / 10);
        assert forall|i: int| 0 <= i < dec_digits(n).len() implies is_digit(dec_digits(n)[i]) by {
            if i < dec_digits(n / 10).len() {
                assert(dec_digits(n)[i] == dec_digits(n / 10)[i]);
            }
        }
    }
}

pub proof fn lemma_digit_roundtrip(m: nat)
    requires
        m < 10,
    ensures
        is_digit(digit_of(m)),
        digit_val(digit_of(m)) == m,
{
    assert(48 + m <= 57);
    assert(digit_of(m) == 48 + m);
}

pub proof fn lemma_dec_digits_val(n: nat)
    ensures
        digits_val(dec_digits(n)) == n,
    decreases n,
{
    if n < 10 {
        lemma_digit_roundtrip(n);
        let s = seq![digit_of(n)];
        assert(s.drop_last() =~= Seq::<u8>::empty());
        assert(s.last() == digit_of(n));
        assert(digits_val(Seq::<u8>::empty()) == 0);
        assert(digits_val(s) == digits_val(s.drop_last()) * 10 + digit_val(s.last()));
        assert(dec_digits(n) == s);
    } else {
        lemma_dec_digits_val(n / 10);
        lemma_digit_roundtrip(n % 10);
        let s = dec_digits(n / 10).push(digit_of(n % 10));
        assert(s.drop_last() =~= dec_digits(n / 10));
        assert(s.last() == digit_of(n % 10));
        assert(digits_val(s) == digits_val(dec_digits(n / 10)) * 10 + digit_val(digit_of(n % 10)));
        lemma_fundamental_div_mod(n as int, 10);
    }
}

pub open spec fn pow10(k: nat) -> nat
    decreases k,
{
    if k == 0 {
        1
    } else {
        10 * pow10((k - 1) as nat)
    }
}

pub proof fn lemma_pow10_pos(k: nat)
    ensures
        pow10(k) >= 1,
    decreases k,
{
    if k > 0 {
        lemma_pow10_pos((k - 1) as nat);
    }
}

pub proof fn lemma_digits_val_append(a: Seq<u8>, b: Seq<u8>)
    ensures
        digits_val(a + b) == digits_val(a) * pow10(b.len()) + digits_val(b),
    decreases b.len(),
{
    if b.len() == 0 {
        assert(a + b =~= a);
        assert(pow10(0) == 1);
    } else {
        let b0 = b.drop_last();
        lemma_digits_val_append(a, b0);
        assert((a + b).drop_last() =~= a + b0);
        assert((a + b).last() == b.last());
        assert(digits_val(a + b) == digits_val(a + b0) * 10 + digit_val(b.last()));
        let x = digits_val(a);
        let p = pow10(b0.len());
        let y = digits_val(b0);
        assert((x * p + y) * 10 == x * (10 * p) + y * 10) by (nonlinear_arith);
        assert(pow10(b.len()) == 10 * pow10(b0.len()));
        assert(digits_val(b) == digits_val(b0) * 10 + digit_val(b.last()));
    }
}

/// The value of a digit string only grows as more digits follow.
pub proof fn lemma_digits_val_prefix_le(s: Seq<u8>, k: int)
    requires
        0 <= k <= s.len(),
    ensures
        digits_val(s.take(k)) <= digits_val(s),
{
    assert(s =~= s.take(k) + s.skip(k));
    lemma_digits_val_append(s.take(k), s.skip(k));
    lemma_pow10_pos(s.skip(k).len());
    let x = digits_val(s.take(k));
    let p = pow10(s.skip(k).len());
    assert(x <= x * p) by (nonlinear_arith)
        requires
            p >= 1,
    ;
}

/// Encoding then decoding gives back exactly what was encoded: the codec
/// loses nothing, whatever bytes the path holds — separators included.
pub proof fn lemma_round_trip(drop_timestamp: u64, serial: u64, path: Seq<u8>)
    ensures
        spec_decode(encoded_name(drop_timestamp, serial, path)) == Some(
            (drop_timestamp, serial, path),
        ),
{
    let td = dec_digits(drop_timestamp as nat);
    let sp = serial_part(serial);
    let sd = dec_digits(serial as nat);
    let name = encoded_name(drop_timestamp, serial, path);
    lemma_dec_digits_shape(drop_timestamp as nat);
    lemma_dec_digits_val(drop_timestamp as nat);
    lemma_dec_digits_shape(serial as nat);
    lemma_dec_digits_val(serial as nat);
    let pl = (td.len() + sp.len()) as int;
    assert(name[pl] == SEPARATOR);
    assert forall|j: int| 0 <= j < pl implies name[j] != SEPARATOR by {
        if j < td.len() {
            assert(name[j] == td[j]);
            assert(is_digit(td[j]));
        } else {
            assert(serial != 0);
            assert(name[j] == sp[j - td.len()]);
            if j == td.len() {
                assert(sp[0] == SERIAL_MARK);
            } else {
                assert(sp[j - td.len()] == sd[j - td.len() - 1]);
                assert(is_digit(sd[j - td.len() - 1]));
            }
        }
    }
    assert(first_index_of(name, SEPARATOR, pl));
    assert(contains_byte(name, SEPARATOR));
    let i = choose|i: int| first_index_of(name, SEPARATOR, i);
    lemma_first_index_unique(name, SEPARATOR, i, pl);
    let prefix = name.take(pl);
    assert(prefix =~= td + sp);
    assert(name.skip(pl + 1) =~= path);
    if serial == 0 {
        assert(prefix =~= td);
        assert forall|j: int| 0 <= j < prefix.len() implies prefix[j] != SERIAL_MARK by {
            assert(is_digit(td[j]));
        }
        assert(!contains_byte(prefix, SERIAL_MARK));
        assert(valid_digits(prefix));
        assert(digits_val(prefix) == drop_timestamp as nat);
    } else {
        let kd = td.len() as int;
        assert(prefix[kd] == SERIAL_MARK);
        assert forall|j: int| 0 <= j < kd implies prefix[j] != SERIAL_MARK by {
            assert(prefix[j] == td[j]);
            assert(is_digit(td[j]));
        }
        assert(first_index_of(prefix, SERIAL_MARK, kd));
        assert(contains_byte(prefix, SERIAL_MARK));
        let k = choose|k: int| first_index_of(prefix, SERIAL_MARK, k);
        lemma_first_index_unique(prefix, SERIAL_MARK, k, kd);
        assert(prefix.take(kd) =~= td);
        assert(prefix.skip(kd + 1) =~= sd);
        assert(valid_digits(td));
        assert(valid_digits(sd));
        assert(digits_val(td) == drop_timestamp as nat);
        assert(digits_val(sd) == serial as nat);
    }
}

/// Appends the decimal digits of `n` to `out`.
fn push_decimal(out: &mut Vec<u8>, n: u64)
    ensures
        final(out)@ == old(out)@ + dec_digits(n as nat),
    decreases n,
{
    if n < 10 {
        out.push(48 + n as u8);
        proof {
            assert(48 + (n as u8) == digit_of(n as nat));
            assert(out@ =~= old(out)@ + dec_digits(n as nat));
        }
    } else {
        push_decimal(out, n / 10);
        let d: u8 = (n % 10) as u8;
        out.push(48 + d);
        proof {
            assert(48 + d == digit_of((n % 10) as nat));
            assert(out@ =~= old(out)@ + dec_digits(n as nat));
        }
    }
}

/// Builds the stored name under which an entry lives in the holding
/// directory: `{timestamp}[.{serial}]_{path}`.
pub fn encode(drop_timestamp: u64, serial: u64, path: &[u8]) -> (name: Vec<u8>)
    ensures
        name@ == encoded_name(drop_timestamp, serial, path@),
{
    let mut name: Vec<u8> = Vec::new();
    push_decimal(&mut name, drop_timestamp);
    if serial != 0 {
        name.push(SERIAL_MARK);
        push_decimal(&mut name, serial);
    }
    name.push(SEPARATOR);
    name.extend_from_slice(path);
    proof {
        assert(name@ =~= encoded_name(drop_timestamp, serial, path@));
    }
    name
}

/// Index of the first occurrence of `b` in `s`, if any.
fn find_first(s: &[u8], b: u8) -> (r: Option<usize>)
    ensures
        match r {
            Some(i) => first_index_of(s@, b, i as int),
            None => !contains_byte(s@, b),
        },
{
    let mut i: usize = 0;
    while i < s.len()
        invariant
            0 <= i <= s@.len(),
            forall|j: int| 0 <= j < i ==> s@[j] != b,
        decreases s@.len() - i,
    {
        if s[i] == b {
            return Some(i);
        }
        i += 1;
    }
    None
}

/// Parses a non-empty all-digit string into its value; `None` when a byte
/// is no digit or the value does not fit.
fn parse_digits(s: &[u8]) -> (r: Option<u64>)
    ensures
        match r {
            Some(v) => valid_digits(s@) && v == digits_val(s@),
            None => !valid_digits(s@),
        },
{
    if s.len() == 0 {
        return None;
    }
    let mut acc: u64 = 0;
    let mut i: usize = 0;
    while i < s.len()
        invariant
            0 <= i <= s@.len(),
            is_digits(s@.take(i as int)),
            acc == digits_val(s@.take(i as int)),
        decreases s@.len() - i,
    {
        let b = s[i];
        if !(48 <= b && b <= 57) {
            proof {
                assert(!is_digit(s@[i as int]));
            }
            return None;
        }
        let d: u64 = (b - 48) as u64;
        proof {
            let t1 = s@.take(i as int + 1);
            assert(t1.drop_last() =~= s@.take(i as int));
            assert(t1.last() == s@[i as int]);
            assert(digits_val(t1) == acc * 10 + d);
            lemma_fundamental_div_mod((u64::MAX - d) as int, 10);
        }
        if acc > (u64::MAX - d) / 10 {
            proof {
                assert(acc * 10 + d > u64::MAX);
                lemma_digits_val_prefix_le(s@, i as int + 1);
                assert(digits_val(s@) > u64::MAX);
            }
            return None;
        }
        assert(acc * 10 + d <= u64::MAX);
        acc = acc * 10 + d;
        proof {
            let t1 = s@.take(i as int + 1);
            assert forall|j: int| 0 <= j < t1.len() implies is_digit(#[trigger] t1[j]) by {
                if j < i {
                    assert(t1[j] == s@.take(i as int)[j]);
                }
            }
            assert(is_digits(t1));
        }
        i += 1;
    }
    proof {
        assert(s@.take(s@.len() as int) =~= s@);
    }
    Some(acc)
}

/// Parses the numeric prefix of a stored name: `{timestamp}` alone, or
/// `{timestamp}.{serial}` split at the first serial mark.
fn parse_prefix(prefix: &[u8]) -> (r: Option<(u64, u64)>)
    ensures
        r == spec_parse_prefix(prefix@),
{
    match find_first(prefix, SERIAL_MARK) {
        None => {
            match parse_digits(prefix) {
                Some(v) => Some((v, 0u64)),
                None => None,
            }
        },
        Some(k) => {
            proof {
                let kk = choose|kk: int| first_index_of(prefix@, SERIAL_MARK, kk);
                lemma_first_index_unique(prefix@, SERIAL_MARK, kk, k as int);
            }
            let plen = prefix.len();
            assert(k < plen);
            let ts = vstd::slice::slice_subrange(prefix, 0, k);
            let ser = vstd::slice::slice_subrange(prefix, k + 1, plen);
            proof {
                assert(ts@ =~= prefix@.take(k as int));
                assert(ser@ =~= prefix@.skip(k as int + 1));
            }
            match parse_digits(ts) {
                None => None,
                Some(t) => {
                    match parse_digits(ser) {
                        None => None,
                        Some(n) => Some((t, n)),
                    }
                },
            }
        },
    }
}

/// Takes a stored name apart. A name without a separator, or with a prefix
/// that is no timestamp, is foreign: the result is `None`, never a failure.
pub fn decode(name: &[u8]) -> (r: Option<DroppedEntry>)
    ensures
        match r {
            Some(e) => spec_decode(name@) == Some((e.drop_timestamp, e.serial, e.original_path@)),
            None => spec_decode(name@) is None,
        },
{
    match find_first(name, SEPARATOR) {
        None => None,
        Some(i) => {
            proof {
                let ii = choose|ii: int| first_index_of(name@, SEPARATOR, ii);
                lemma_first_index_unique(name@, SEPARATOR, ii, i as int);
            }
            let prefix = vstd::slice::slice_subrange(name, 0, i);
            proof {
                assert(prefix@ =~= name@.take(i as int));
            }
            match parse_prefix(prefix) {
                None => None,
                Some((t, n)) => {
                    let nlen = name.len();
                    assert(i < nlen);
                    let rest = vstd::slice::slice_subrange(name, i + 1, nlen);
                    let path = vstd::slice::slice_to_vec(rest);
                    proof {
                        assert(path@ =~= name@.skip(i as int + 1));
                    }
                    Some(DroppedEntry { drop_timestamp: t, serial: n, original_path: path })
                },
            }
        },
    }
}

} // verus!

