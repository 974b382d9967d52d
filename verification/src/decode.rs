//! The Bencode decoder: a byte-offset parser from a raw buffer to a `Value`,
//! specified by a total mathematical decoder (`spec_decode_at`) that the
//! executable functions are proved to match exactly, error for error.

use vstd::prelude::*;

use crate::value::BencodeError;
use crate::value::SpecValue;
use crate::value::Value;
use crate::value::lemma_deep_items;
use crate::value::lemma_deep_items_push;
use crate::value::lemma_deep_pairs;
use crate::value::lemma_deep_pairs_push;

verus! {

/// ASCII decimal digit.
pub open spec fn is_digit(b: u8) -> bool {
    48 <= b <= 57
}

/// First position at or after `i` that holds no digit (the buffer end at most).
pub open spec fn digit_run_end(s: Seq<u8>, i: int) -> int
    decreases s.len() - i,
{
    if 0 <= i < s.len() && is_digit(s[i]) {
        digit_run_end(s, i + 1)
    } else {
        i
    }
}

/// The value of the decimal digit run `s[i..j]`.
pub open spec fn digits_val(s: Seq<u8>, i: int, j: int) -> int
    decreases j - i,
{
    if i >= j {
        0
    } else {
        digits_val(s, i, j - 1) * 10 + (s[j - 1] - 48)
    }
}

/// A digit run that the grammar accepts: non-empty, and no leading zero
/// unless it is the single digit `0`.
pub open spec fn digits_ok(s: Seq<u8>, i: int, j: int) -> bool {
    i < j && (s[i] != 48 || j == i + 1)
}

/// Some pair of `ps` carries the key `k`.
pub open spec fn has_key(ps: Seq<(Seq<u8>, SpecValue)>, k: Seq<u8>) -> bool {
    exists|i: int| 0 <= i < ps.len() && (#[trigger] ps[i]).0 == k
}

/// The byte-string production `<digits>:<bytes>`, starting at the first digit.
pub open spec fn spec_decode_bytes(s: Seq<u8>, i: int) -> Result<(Seq<u8>, int), BencodeError> {
    let j = digit_run_end(s, i);
    if !digits_ok(s, i, j) {
        Err(BencodeError::MalformedInteger)
    } else if j >= s.len() {
        Err(BencodeError::TruncatedInput)
    } else if s[j] != 58 {
        Err(BencodeError::InvalidTag)
    } else {
        let n = digits_val(s, i, j);
        if n > s.len() - (j + 1) {
            Err(BencodeError::TruncatedInput)
        } else {
            Ok((s.subrange(j + 1, j + 1 + n), j + 1 + n))
        }
    }
}

/// The integer production `i<digits>e`, starting at the `i` tag.
pub open spec fn spec_decode_int(s: Seq<u8>, i: int) -> Result<(SpecValue, int), BencodeError> {
    let neg = i + 1 < s.len() && s[i + 1] == 45;
    let d0 = if neg {
        i + 2
    } else {
        i + 1
    };
    let j = digit_run_end(s, d0);
    if !digits_ok(s, d0, j) {
        Err(BencodeError::MalformedInteger)
    } else if j >= s.len() {
        Err(BencodeError::TruncatedInput)
    } else if s[j] != 101 {
        Err(BencodeError::MalformedInteger)
    } else if neg && digits_val(s, d0, j) == 0 {
        Err(BencodeError::MalformedInteger)
    } else {
        let n = if neg {
            -digits_val(s, d0, j)
        } else {
            digits_val(s, d0, j)
        };
        if n < i64::MIN || n > i64::MAX {
            Err(BencodeError::IntegerOverflow)
        } else {
            Ok((SpecValue::Integer(n), j + 1))
        }
    }
}

/// One Bencode value starting at offset `i`. `depth` is how many container
/// levels may still be opened; the decoder is total and mirrors the
/// executable functions exactly.
pub open spec fn spec_decode_at(s: Seq<u8>, i: int, depth: nat) -> Result<
    (SpecValue, int),
    BencodeError,
>
    decreases s.len() - i, 0int,
{
    if i < 0 || i >= s.len() {
        Err(BencodeError::InvalidTag)
    } else if is_digit(s[i]) {
        match spec_decode_bytes(s, i) {
            Ok((b, j)) => Ok((SpecValue::Bytes(b), j)),
            Err(e) => Err(e),
        }
    } else if s[i] == 105 {
        spec_decode_int(s, i)
    } else if s[i] == 108 {
        if depth == 0 {
            Err(BencodeError::RecursionLimitExceeded)
        } else {
            match spec_decode_items(s, i + 1, (depth - 1) as nat) {
                Ok((es, j)) => Ok((SpecValue::List(es), j)),
                Err(e) => Err(e),
            }
        }
    } else if s[i] == 100 {
        if depth == 0 {
            Err(BencodeError::RecursionLimitExceeded)
        } else {
            match spec_decode_pairs(s, i + 1, (depth - 1) as nat, Seq::empty()) {
                Ok((ps, j)) => Ok((SpecValue::Dict(ps), j)),
                Err(e) => Err(e),
            }
        }
    } else {
        Err(BencodeError::InvalidTag)
    }
}

/// List elements from offset `i` up to and including the terminating `e`.
pub open spec fn spec_decode_items(s: Seq<u8>, i: int, depth: nat) -> Result<
    (Seq<SpecValue>, int),
    BencodeError,
>
    decreases s.len() - i, 1int,
{
    if i < 0 || i >= s.len() {
        Err(BencodeError::TruncatedInput)
    } else if s[i] == 101 {
        Ok((Seq::empty(), i + 1))
    } else {
        match spec_decode_at(s, i, depth) {
            Ok((v, j)) => if i < j <= s.len() {
                match spec_decode_items(s, j, depth) {
                    Ok((vs, k)) => Ok((seq![v] + vs, k)),
                    Err(e) => Err(e),
                }
            } else {
                Err(BencodeError::TruncatedInput)
            },
            Err(e) => Err(e),
        }
    }
}

/// Dictionary pairs from offset `i` up to and including the terminating `e`;
/// `acc` holds the pairs already read, against which new keys are checked.
pub open spec fn spec_decode_pairs(
    s: Seq<u8>,
    i: int,
    depth: nat,
    acc: Seq<(Seq<u8>, SpecValue)>,
) -> Result<(Seq<(Seq<u8>, SpecValue)>, int), BencodeError>
    decreases s.len() - i, 1int,
{
    if i < 0 || i >= s.len() {
        Err(BencodeError::TruncatedInput)
    } else if s[i] == 101 {
        Ok((acc, i + 1))
    } else if !is_digit(s[i]) {
        Err(BencodeError::InvalidKeyType)
    } else {
        match spec_decode_bytes(s, i) {
            Ok((key, j)) => if has_key(acc, key) {
                Err(BencodeError::DuplicateKey)
            } else if i < j <= s.len() {
                match spec_decode_at(s, j, depth) {
                    Ok((v, k)) => if j < k <= s.len() {
                        spec_decode_pairs(s, k, depth, acc.push((key, v)))
                    } else {
                        Err(BencodeError::TruncatedInput)
                    },
                    Err(e) => Err(e),
                }
            } else {
                Err(BencodeError::TruncatedInput)
            },
            Err(e) => Err(e),
        }
    }
}

/// A whole decode call: one value from the start of the buffer, trailing
/// bytes permitted, with `max_depth` container levels allowed.
pub open spec fn spec_decode(s: Seq<u8>, max_depth: nat) -> Result<(SpecValue, int), BencodeError> {
    spec_decode_at(s, 0, max_depth)
}

/// A successful parse always consumes at least one byte and never passes the
/// end of the buffer.
pub proof fn lemma_decode_bytes_bounds(s: Seq<u8>, i: int)
    requires
        0 <= i < s.len(),
    ensures
        spec_decode_bytes(s, i) matches Ok((b, j)) ==> i < j <= s.len(),
{
    lemma_digit_run_end_bounds(s, i);
    lemma_digit_run_end_digits(s, i);
    let j = digit_run_end(s, i);
    lemma_digits_val_nonneg(s, i, j);
}

/// Every byte of the run `s[i..digit_run_end(s, i)]` is a digit, and the run
/// stops at a non-digit or at the end.
pub proof fn lemma_digit_run_end_digits(s: Seq<u8>, i: int)
    requires
        0 <= i <= s.len(),
    ensures
        forall|k: int| i <= k < digit_run_end(s, i) ==> is_digit(s[k]),
        digit_run_end(s, i) < s.len() ==> !is_digit(s[digit_run_end(s, i)]),
    decreases s.len() - i,
{
    if i < s.len() && is_digit(s[i]) {
        lemma_digit_run_end_digits(s, i + 1);
    }
}

/// Powers of ten.
pub open spec fn pow10(n: nat) -> int
    decreases n,
{
    if n == 0 {
        1
    } else {
        10 * pow10((n - 1) as nat)
    }
}

/// `pow10` never decreases.
pub proof fn lemma_pow10_mono(m: nat, n: nat)
    requires
        m <= n,
    ensures
        1 <= pow10(m) <= pow10(n),
    decreases n,
{
    lemma_pow10_pos(m);
    if m < n {
        lemma_pow10_mono(m, (n - 1) as nat);
    }
}

/// `pow10` is positive.
pub proof fn lemma_pow10_pos(n: nat)
    ensures
        pow10(n) >= 1,
    decreases n,
{
    if n > 0 {
        lemma_pow10_pos((n - 1) as nat);
    }
}

/// A digit run of `d` digits with no leading zero has a value of at least
/// `pow10(d - 1)`.
pub proof fn lemma_digits_val_lower(s: Seq<u8>, i: int, j: int)
    requires
        i < j,
        forall|k: int| i <= k < j ==> is_digit(#[trigger] s[k]),
        s[i] != 48,
    ensures
        digits_val(s, i, j) >= pow10((j - i - 1) as nat),
    decreases j - i,
{
    if i < j - 1 {
        lemma_digits_val_lower(s, i, j - 1);
        lemma_digits_val_nonneg(s, i, j - 1);
        assert(is_digit(s[j - 1]));
        assert(digits_val(s, i, j) == digits_val(s, i, j - 1) * 10 + (s[j - 1] - 48));
        assert(pow10((j - i - 1) as nat) == 10 * pow10((j - i - 2) as nat));
        assert(digits_val(s, i, j - 1) * 10 >= pow10((j - i - 2) as nat) * 10);
    } else {
        assert(j == i + 1);
        assert(digits_val(s, i, j) == digits_val(s, i, i) * 10 + (s[i] - 48));
        assert(digits_val(s, i, i) == 0);
        assert(s[i] >= 49);
    }
}

/// The value of a digit run is non-negative, and grows with its length.
pub proof fn lemma_digits_val_nonneg(s: Seq<u8>, i: int, j: int)
    requires
        forall|k: int| i <= k < j ==> is_digit(#[trigger] s[k]),
    ensures
        digits_val(s, i, j) >= 0,
    decreases j - i,
{
    if i < j {
        lemma_digits_val_nonneg(s, i, j - 1);
    }
}

/// `digit_run_end` stays between its start and the buffer end.
pub proof fn lemma_digit_run_end_bounds(s: Seq<u8>, i: int)
    requires
        0 <= i <= s.len(),
    ensures
        i <= digit_run_end(s, i) <= s.len(),
    decreases s.len() - i,
{
    if i < s.len() && is_digit(s[i]) {
        lemma_digit_run_end_bounds(s, i + 1);
    }
}

/// The integer production also consumes at least one byte and stays in the
/// buffer.
pub proof fn lemma_decode_int_bounds(s: Seq<u8>, i: int)
    requires
        0 <= i < s.len(),
    ensures
        spec_decode_int(s, i) matches Ok((v, j)) ==> i < j <= s.len(),
{
    let neg = i + 1 < s.len() && s[i + 1] == 45;
    let d0 = if neg {
        i + 2
    } else {
        i + 1
    };
    if d0 <= s.len() {
        lemma_digit_run_end_bounds(s, d0);
    }
}

/// Every successful parse of a value consumes at least one byte and ends
/// inside the buffer.
pub proof fn lemma_decode_at_bounds(s: Seq<u8>, i: int, depth: nat)
    ensures
        spec_decode_at(s, i, depth) matches Ok((v, j)) ==> i < j <= s.len(),
    decreases s.len() - i, 0int,
{
    if 0 <= i < s.len() {
        if is_digit(s[i]) {
            lemma_decode_bytes_bounds(s, i);
        } else if s[i] == 105 {
            lemma_decode_int_bounds(s, i);
        } else if s[i] == 108 && depth > 0 {
            lemma_decode_items_bounds(s, i + 1, (depth - 1) as nat);
        } else if s[i] == 100 && depth > 0 {
            lemma_decode_pairs_bounds(s, i + 1, (depth - 1) as nat, Seq::empty());
        }
    }
}

/// Bounds for a run of list elements.
pub proof fn lemma_decode_items_bounds(s: Seq<u8>, i: int, depth: nat)
    ensures
        spec_decode_items(s, i, depth) matches Ok((vs, k)) ==> i < k <= s.len(),
    decreases s.len() - i, 1int,
{
    if 0 <= i < s.len() && s[i] != 101 {
        lemma_decode_at_bounds(s, i, depth);
        if let Ok((v, j)) = spec_decode_at(s, i, depth) {
            if i < j <= s.len() {
                lemma_decode_items_bounds(s, j, depth);
            }
        }
    }
}

/// Bounds for a run of dictionary pairs.
pub proof fn lemma_decode_pairs_bounds(
    s: Seq<u8>,
    i: int,
    depth: nat,
    acc: Seq<(Seq<u8>, SpecValue)>,
)
    ensures
        spec_decode_pairs(s, i, depth, acc) matches Ok((ps, k)) ==> i < k <= s.len(),
    decreases s.len() - i, 1int,
{
    if 0 <= i < s.len() && s[i] != 101 && is_digit(s[i]) {
        lemma_decode_bytes_bounds(s, i);
        if let Ok((key, j)) = spec_decode_bytes(s, i) {
            if !has_key(acc, key) && i < j <= s.len() {
                lemma_decode_at_bounds(s, j, depth);
                if let Ok((v, k)) = spec_decode_at(s, j, depth) {
                    if j < k <= s.len() {
                        lemma_decode_pairs_bounds(s, k, depth, acc.push((key, v)));
                    }
                }
            }
        }
    }
}

/// Whether two byte vectors hold the same bytes.
pub fn bytes_eq(a: &Vec<u8>, b: &Vec<u8>) -> (r: bool)
    ensures
        r == (a@ == b@),
{
    if a.len() != b.len() {
        return false;
    }
    let mut t: usize = 0;
    while t < a.len()
        invariant
            0 <= t <= a@.len(),
            a@.len() == b@.len(),
            forall|m: int| 0 <= m < t ==> a@[m] == b@[m],
        decreases a@.len() - t,
    {
        if a[t] != b[t] {
            return false;
        }
        t += 1;
    }
    proof {
        assert(a@ =~= b@);
    }
    true
}

/// The byte-string production, executable form. Returns the raw bytes and
/// the offset just past them.
fn decode_bytes_at(s: &Vec<u8>, i: usize) -> (r: Result<(Vec<u8>, usize), BencodeError>)
    requires
        i < s@.len(),
        is_digit(s@[i as int]),
    ensures
        match r {
            Ok(p) => spec_decode_bytes(s@, i as int) == Ok::<(Seq<u8>, int), BencodeError>(
                (p.0@, p.1 as int),
            ) && i < p.1 <= s@.len(),
            Err(e) => spec_decode_bytes(s@, i as int) == Err::<(Seq<u8>, int), BencodeError>(e),
        },
{
    let len = s.len();
    proof {
        lemma_digit_run_end_bounds(s@, i as int);
        lemma_digit_run_end_digits(s@, i as int);
    }
    let mut j: usize = i;
    while j < len && 48 <= s[j] && s[j] <= 57
        invariant
            i <= j <= len,
            len == s@.len(),
            digit_run_end(s@, i as int) == digit_run_end(s@, j as int),
        decreases len - j,
    {
        j += 1;
    }
    assert(j == digit_run_end(s@, i as int));
    let ghost gj = j as int;
    proof {
        lemma_digits_val_nonneg(s@, i as int, gj);
    }
    if s[i] == 48 && j > i + 1 {
        return Err(BencodeError::MalformedInteger);
    }
    assert(digits_ok(s@, i as int, gj));
    if j >= len {
        return Err(BencodeError::TruncatedInput);
    }
    if s[j] != 58 {
        return Err(BencodeError::InvalidTag);
    }
    // the length value, watching for a value too large for 64 bits
    let mut acc: u64 = 0;
    let mut big = false;
    let mut k: usize = i;
    while k < j
        invariant
            i <= k <= j < len,
            len == s@.len(),
            forall|m: int| i <= m < gj ==> is_digit(#[trigger] s@[m]),
            gj == j,
            !big ==> acc == digits_val(s@, i as int, k as int),
            big ==> digits_val(s@, i as int, k as int) > u64::MAX,
        decreases j - k,
    {
        let d = (s[k] - 48) as u64;
        proof {
            lemma_digits_val_nonneg(s@, i as int, k as int);
            vstd::arithmetic::div_mod::lemma_fundamental_div_mod((u64::MAX - d) as int, 10);
        }
        if !big {
            if acc > (u64::MAX - d) / 10 {
                big = true;
            } else {
                acc = acc * 10 + d;
            }
        }
        k += 1;
    }
    let ghost n = digits_val(s@, i as int, gj);
    let rest = len - (j + 1);
    if big {
        return Err(BencodeError::TruncatedInput);
    }
    if acc > rest as u64 {
        return Err(BencodeError::TruncatedInput);
    }
    let count = acc as usize;
    let stop = j + 1 + count;
    let mut out: Vec<u8> = Vec::new();
    let mut t: usize = j + 1;
    while t < stop
        invariant
            j + 1 <= t <= stop <= len,
            len == s@.len(),
            out@ == s@.subrange(j + 1, t as int),
        decreases stop - t,
    {
        out.push(s[t]);
        proof {
            assert(out@ =~= s@.subrange(j + 1, t + 1 as int));
        }
        t += 1;
    }
    proof {
        assert(out@ =~= s@.subrange(gj + 1, gj + 1 + n));
    }
    Ok((out, stop))
}

/// The integer production, executable form. Returns the parsed integer and
/// the offset just past the terminating `e`.
fn decode_int_at(s: &Vec<u8>, i: usize) -> (r: Result<(i64, usize), BencodeError>)
    requires
        i < s@.len(),
        s@[i as int] == 105,
    ensures
        match r {
            Ok(p) => spec_decode_int(s@, i as int) == Ok::<(SpecValue, int), BencodeError>(
                (SpecValue::Integer(p.0 as int), p.1 as int),
            ) && i < p.1 <= s@.len(),
            Err(e) => spec_decode_int(s@, i as int) == Err::<(SpecValue, int), BencodeError>(e),
        },
{
    let len = s.len();
    let neg = i + 1 < len && s[i + 1] == 45;
    let d0 = if neg {
        i + 2
    } else {
        i + 1
    };
    assert(d0 <= len);
    proof {
        lemma_digit_run_end_bounds(s@, d0 as int);
        lemma_digit_run_end_digits(s@, d0 as int);
    }
    let mut j: usize = d0;
    while j < len && 48 <= s[j] && s[j] <= 57
        invariant
            d0 <= j <= len,
            len == s@.len(),
            digit_run_end(s@, d0 as int) == digit_run_end(s@, j as int),
        decreases len - j,
    {
        j += 1;
    }
    assert(j == digit_run_end(s@, d0 as int));
    let ghost gj = j as int;
    if j == d0 {
        return Err(BencodeError::MalformedInteger);
    }
    if s[d0] == 48 && j > d0 + 1 {
        return Err(BencodeError::MalformedInteger);
    }
    assert(digits_ok(s@, d0 as int, gj));
    if j >= len {
        return Err(BencodeError::TruncatedInput);
    }
    if s[j] != 101 {
        return Err(BencodeError::MalformedInteger);
    }
    proof {
        lemma_digits_val_nonneg(s@, d0 as int, gj);
        assert(pow10(19) == 10000000000000000000) by {
            reveal_with_fuel(pow10, 20);
        }
    }
    if j - d0 > 19 {
        // at least twenty digits with no leading zero: past any 64-bit value
        proof {
            lemma_pow10_mono(19, (gj - d0 - 1) as nat);
            lemma_digits_val_lower(s@, d0 as int, gj);
        }
        return Err(BencodeError::IntegerOverflow);
    }
    let mut acc: u64 = 0;
    let mut k: usize = d0;
    while k < j
        invariant
            d0 <= k <= j < len,
            j - d0 <= 19,
            len == s@.len(),
            forall|m2: int| d0 <= m2 < gj ==> is_digit(#[trigger] s@[m2]),
            gj == j,
            acc == digits_val(s@, d0 as int, k as int),
            acc < pow10((k - d0) as nat),
        decreases j - k,
    {
        let d = (s[k] - 48) as u64;
        proof {
            lemma_pow10_mono((k - d0 + 1) as nat, 19);
            assert(pow10(19) == 10000000000000000000) by {
                reveal_with_fuel(pow10, 20);
            }
        }
        acc = acc * 10 + d;
        k += 1;
    }
    if neg && acc == 0 {
        return Err(BencodeError::MalformedInteger);
    }
    if neg {
        if acc > 9223372036854775808u64 {
            return Err(BencodeError::IntegerOverflow);
        }
        let n: i64 = if acc == 9223372036854775808u64 {
            i64::MIN
        } else {
            -(acc as i64)
        };
        Ok((n, j + 1))
    } else {
        if acc > 9223372036854775807u64 {
            return Err(BencodeError::IntegerOverflow);
        }
        Ok((acc as i64, j + 1))
    }
}

/// Whether `k` already occurs as a key among `ps`.
fn has_key_exec(ps: &Vec<(Vec<u8>, Value)>, k: &Vec<u8>) -> (r: bool)
    ensures
        r == has_key(Value::deep_pairs(ps@, 0), k@),
{
    proof {
        lemma_deep_pairs(ps@, 0);
    }
    let ghost model = Value::deep_pairs(ps@, 0);
    let mut t: usize = 0;
    while t < ps.len()
        invariant
            0 <= t <= ps@.len(),
            model == Value::deep_pairs(ps@, 0),
            model.len() == ps@.len(),
            forall|m: int| 0 <= m < model.len() ==> #[trigger] model[m] == (ps@[m].0@, ps@[m].1.deep()),
            forall|m: int| 0 <= m < t ==> (#[trigger] model[m]).0 != k@,
        decreases ps@.len() - t,
    {
        if bytes_eq(&ps[t].0, k) {
            assert(model[t as int].0 == k@);
            return true;
        }
        t += 1;
    }
    false
}

/// The number of container levels the decoder will enter by default.
pub const DEFAULT_MAX_DEPTH: usize = 64;

/// One Bencode value starting at byte offset `i`, entering at most `depth`
/// container levels. Returns the value and the offset just past it; the
/// result, error for error, is `spec_decode_at(s@, i, depth)`.
pub fn decode_at(s: &Vec<u8>, i: usize, depth: usize) -> (r: Result<(Value, usize), BencodeError>)
    ensures
        match r {
            Ok(p) => spec_decode_at(s@, i as int, depth as nat) == Ok::<
                (SpecValue, int),
                BencodeError,
            >((p.0.deep(), p.1 as int)) && i < p.1 <= s@.len(),
            Err(e) => spec_decode_at(s@, i as int, depth as nat) == Err::<
                (SpecValue, int),
                BencodeError,
            >(e),
        },
    decreases s@.len() - i,
{
    let len = s.len();
    if i >= len {
        return Err(BencodeError::InvalidTag);
    }
    let b = s[i];
    if 48 <= b && b <= 57 {
        match decode_bytes_at(s, i) {
            Ok((bytes, j)) => Ok((Value::Bytes(bytes), j)),
            Err(e) => Err(e),
        }
    } else if b == 105 {
        match decode_int_at(s, i) {
            Ok((n, j)) => Ok((Value::Integer(n), j)),
            Err(e) => Err(e),
        }
    } else if b == 108 {
        if depth == 0 {
            return Err(BencodeError::RecursionLimitExceeded);
        }
        let ghost d = (depth - 1) as nat;
        let mut cur: usize = i + 1;
        let mut items: Vec<Value> = Vec::new();
        loop
            invariant
                i + 1 <= cur <= len,
                len == s@.len(),
                i < len,
                s@[i as int] == 108,
                1 <= depth <= usize::MAX,
                d == (depth - 1) as nat,
                (match spec_decode_items(s@, cur as int, d) {
                    Ok((vs, k)) => spec_decode_items(s@, i + 1 as int, d) == Ok::<
                        (Seq<SpecValue>, int),
                        BencodeError,
                    >((Value::deep_items(items@, 0) + vs, k)),
                    Err(e) => spec_decode_items(s@, i + 1 as int, d) == Err::<
                        (Seq<SpecValue>, int),
                        BencodeError,
                    >(e),
                }),
            decreases s@.len() - cur,
        {
            if cur >= len {
                return Err(BencodeError::TruncatedInput);
            }
            if s[cur] == 101 {
                proof {
                    lemma_deep_items(items@, 0);
                    assert(Value::deep_items(items@, 0) + Seq::<SpecValue>::empty()
                        =~= Value::deep_items(items@, 0));
                }
                return Ok((Value::List(items), cur + 1));
            }
            match decode_at(s, cur, depth - 1) {
                Err(e) => {
                    return Err(e);
                },
                Ok((v, j)) => {
                    proof {
                        lemma_decode_at_bounds(s@, cur as int, d);
                        lemma_deep_items_push(items@, v);
                        if let Ok((vs, k)) = spec_decode_items(s@, j as int, d) {
                            assert(Value::deep_items(items@, 0) + (seq![v.deep()] + vs)
                                =~= Value::deep_items(items@.push(v), 0) + vs);
                        }
                    }
                    items.push(v);
                    cur = j;
                },
            }
        }
    } else if b == 100 {
        if depth == 0 {
            return Err(BencodeError::RecursionLimitExceeded);
        }
        let ghost d = (depth - 1) as nat;
        let mut cur: usize = i + 1;
        let mut pairs: Vec<(Vec<u8>, Value)> = Vec::new();
        loop
            invariant
                i + 1 <= cur <= len,
                len == s@.len(),
                i < len,
                s@[i as int] == 100,
                1 <= depth <= usize::MAX,
                d == (depth - 1) as nat,
                (match spec_decode_pairs(s@, cur as int, d, Value::deep_pairs(pairs@, 0)) {
                    Ok((qs, k)) => spec_decode_pairs(s@, i + 1 as int, d, Seq::empty()) == Ok::<
                        (Seq<(Seq<u8>, SpecValue)>, int),
                        BencodeError,
                    >((qs, k)),
                    Err(e) => spec_decode_pairs(s@, i + 1 as int, d, Seq::empty()) == Err::<
                        (Seq<(Seq<u8>, SpecValue)>, int),
                        BencodeError,
                    >(e),
                }),
            decreases s@.len() - cur,
        {
            if cur >= len {
                return Err(BencodeError::TruncatedInput);
            }
            if s[cur] == 101 {
                return Ok((Value::Dict(pairs), cur + 1));
            }
            let c = s[cur];
            if !(48 <= c && c <= 57) {
                return Err(BencodeError::InvalidKeyType);
            }
            match decode_bytes_at(s, cur) {
                Err(e) => {
                    return Err(e);
                },
                Ok((key, j)) => {
                    if has_key_exec(&pairs, &key) {
                        return Err(BencodeError::DuplicateKey);
                    }
                    match decode_at(s, j, depth - 1) {
                        Err(e) => {
                            return Err(e);
                        },
                        Ok((v, j2)) => {
                            proof {
                                lemma_decode_at_bounds(s@, j as int, d);
                                lemma_deep_pairs_push(pairs@, key, v);
                            }
                            pairs.push((key, v));
                            cur = j2;
                        },
                    }
                },
            }
        }
    } else {
        Err(BencodeError::InvalidTag)
    }
}

/// Decode one value from the start of the buffer with the default nesting
/// limit; trailing bytes are permitted and reflected in the returned offset.
pub fn decode(s: &Vec<u8>) -> (r: Result<(Value, usize), BencodeError>)
    ensures
        match r {
            Ok(p) => spec_decode(s@, DEFAULT_MAX_DEPTH as nat) == Ok::<
                (SpecValue, int),
                BencodeError,
            >((p.0.deep(), p.1 as int)) && 0 < p.1 <= s@.len(),
            Err(e) => spec_decode(s@, DEFAULT_MAX_DEPTH as nat) == Err::<
                (SpecValue, int),
                BencodeError,
            >(e),
        },
{
    decode_at(s, 0, DEFAULT_MAX_DEPTH)
}

/// Decode one value from the start of the buffer, entering at most
/// `max_depth` container levels.
pub fn decode_with_limit(s: &Vec<u8>, max_depth: usize) -> (r: Result<
    (Value, usize),
    BencodeError,
>)
    ensures
        match r {
            Ok(p) => spec_decode(s@, max_depth as nat) == Ok::<(SpecValue, int), BencodeError>(
                (p.0.deep(), p.1 as int),
            ) && 0 < p.1 <= s@.len(),
            Err(e) => spec_decode(s@, max_depth as nat) == Err::<(SpecValue, int), BencodeError>(e),
        },
{
    decode_at(s, 0, max_depth)
}

} // verus!
