use vstd::prelude::*;

verus! {

pub open spec fn is_digit(b: u8) -> bool {
    48 <= b <= 57
}

/// The value of a string of decimal digits.
pub open spec fn decimal_value(s: Seq<u8>) -> nat
    decreases s.len(),
{
    if s.len() == 0 {
        0
    } else {
        decimal_value(s.drop_last()) * 10 + (s.last() - 48) as nat
    }
}

/// The digits of an unsigned number: an optional leading `+` is dropped.
pub open spec fn unsigned_digits(s: Seq<u8>) -> Seq<u8> {
    if s.len() > 0 && s[0] == 43 {
        s.subrange(1, s.len() as int)
    } else {
        s
    }
}

/// A positive 32-bit dimension written in decimal, or none.
pub open spec fn dimension_spec(s: Seq<u8>) -> Option<u32> {
    let d = unsigned_digits(s);
    if d.len() > 0 && (forall|i: int| 0 <= i < d.len() ==> is_digit(#[trigger] d[i])) && 0
        < decimal_value(d) <= u32::MAX {
        Some(decimal_value(d) as u32)
    } else {
        None
    }
}

/// How many times `b` occurs in `s`.
pub open spec fn count_byte(s: Seq<u8>, b: u8) -> nat
    decreases s.len(),
{
    if s.len() == 0 {
        0
    } else {
        count_byte(s.drop_last(), b) + if s.last() == b { 1nat } else { 0nat }
    }
}

/// `WxH` with exactly one `x` and two positive 32-bit decimal numbers.
pub open spec fn resolution_spec(s: Seq<u8>) -> Option<(u32, u32)> {
    if count_byte(s, 120) != 1 {
        None
    } else {
        let i = choose|i: int| 0 <= i < s.len() && s[i] == 120;
        match (dimension_spec(s.subrange(0, i)), dimension_spec(s.subrange(i + 1, s.len() as int))) {
            (Some(w), Some(h)) => Some((w, h)),
            _ => None,
        }
    }
}

proof fn lemma_decimal_prefix_le(s: Seq<u8>, k: int)
    requires
        0 <= k <= s.len(),
    ensures
        decimal_value(s.take(k)) <= decimal_value(s),
    decreases s.len(),
{
    if k < s.len() {
        lemma_decimal_prefix_le(s.drop_last(), k);
        assert(s.drop_last().take(k) == s.take(k));
    } else {
        assert(s.take(k) == s);
    }
}

/// Reads `s[start..end]` as a positive 32-bit decimal number.
fn parse_dimension(s: &[u8], start: usize, end: usize) -> (r: Option<u32>)
    requires
        start <= end <= s@.len(),
    ensures
        r == dimension_spec(s@.subrange(start as int, end as int)),
{
    let ghost whole = s@.subrange(start as int, end as int);
    let mut i = start;
    if i < end && s[i] == 43u8 {
        i = i + 1;
    }
    let ghost d = unsigned_digits(whole);
    assert(d == s@.subrange(i as int, end as int));
    if i == end {
        return None;
    }
    let mut value: u64 = 0;
    let mut j = i;
    while j < end
        invariant
            i <= j <= end <= s@.len(),
            d == s@.subrange(i as int, end as int),
            d == unsigned_digits(whole),
            whole == s@.subrange(start as int, end as int),
            forall|k: int| 0 <= k < j - i ==> is_digit(#[trigger] d[k]),
            value == decimal_value(d.take(j - i)),
            value <= u32::MAX,
        decreases end - j,
    {
        let b = s[j];
        if b < 48u8 || b > 57u8 {
            proof {
                let k = j - i;
                assert(0 <= k < d.len() && !is_digit(d[k]));
                assert(!(forall|k2: int| 0 <= k2 < d.len() ==> is_digit(#[trigger] d[k2])));
                assert(unsigned_digits(whole) == d);
            }
            return None;
        }
        proof {
            assert(d.take(j - i + 1).drop_last() == d.take(j - i));
            assert(d.take(j - i + 1).last() == b);
        }
        value = value * 10 + (b - 48u8) as u64;
        if value > u32::MAX as u64 {
            proof {
                lemma_decimal_prefix_le(d, j - i + 1);
                assert(decimal_value(d.take(j - i + 1)) == value);
                assert(decimal_value(d) > u32::MAX);
                assert(unsigned_digits(whole) == d);
            }
            return None;
        }
        j = j + 1;
    }
    proof {
        assert(d.take(j - i) == d);
    }
    proof {
        assert(unsigned_digits(whole) == d);
    }
    if value == 0 {
        return None;
    }
    Some(value as u32)
}

/// Reads a resolution written `WxH`: two positive 32-bit decimal numbers
/// around exactly one `x`.
pub fn parse_resolution(s: &[u8]) -> (r: Option<(u32, u32)>)
    ensures
        r == resolution_spec(s@),
{
    let n = s.len();
    let mut count: usize = 0;
    let mut at: usize = 0;
    let mut i: usize = 0;
    while i < n
        invariant
            n == s@.len(),
            i <= n,
            count == count_byte(s@.take(i as int), 120),
            count <= i,
            count >= 1 ==> at < i && s@[at as int] == 120,
            count == 0 ==> forall|k: int| 0 <= k < i ==> s@[k] != 120,
            count == 1 ==> forall|k: int| 0 <= k < i && s@[k] == 120 ==> k == at,
        decreases n - i,
    {
        proof {
            assert(s@.take(i + 1).drop_last() == s@.take(i as int));
        }
        if s[i] == 120u8 {
            if count == 0 {
                at = i;
            }
            count = count + 1;
        }
        i = i + 1;
    }
    proof {
        assert(s@.take(n as int) == s@);
    }
    if count != 1 {
        return None;
    }
    let w = parse_dimension(s, 0, at);
    let h = parse_dimension(s, at + 1, n);
    match (w, h) {
        (Some(w), Some(h)) => Some((w, h)),
        _ => None,
    }
}

/// The number of decimal digits in `s`.
pub open spec fn count_digits(s: Seq<u8>) -> nat
    decreases s.len(),
{
    if s.len() == 0 {
        0
    } else {
        count_digits(s.drop_last()) + if is_digit(s.last()) { 1nat } else { 0nat }
    }
}

/// Index of the last `b` in `s`, or -1.
pub open spec fn last_index_of(s: Seq<u8>, b: u8) -> int
    decreases s.len(),
{
    if s.len() == 0 {
        -1
    } else if s.last() == b {
        s.len() - 1
    } else {
        last_index_of(s.drop_last(), b)
    }
}

/// The digits of a signed number: an optional leading `+` or `-` is dropped.
pub open spec fn signed_digits(s: Seq<u8>) -> Seq<u8> {
    if s.len() > 0 && (s[0] == 43 || s[0] == 45) {
        s.subrange(1, s.len() as int)
    } else {
        s
    }
}

/// Magnitude of a signed 64-bit decimal integer (optional `+` or `-`, then
/// at least one digit), or none.
pub open spec fn signed_magnitude(s: Seq<u8>) -> Option<nat> {
    let negative = s.len() > 0 && s[0] == 45;
    let d = signed_digits(s);
    let limit: nat = if negative { 0x8000_0000_0000_0000 } else { 0x7fff_ffff_ffff_ffff };
    if d.len() > 0 && (forall|i: int| 0 <= i < d.len() ==> is_digit(#[trigger] d[i]))
        && decimal_value(d) <= limit {
        Some(decimal_value(d))
    } else {
        None
    }
}

/// The exponent's magnitude when the text after the last `e` is a signed
/// 64-bit integer, else 0.
pub open spec fn exponent_magnitude(s: Seq<u8>) -> nat {
    let k = last_index_of(s, 101);
    if k < 0 {
        0
    } else {
        match signed_magnitude(s.subrange(k + 1, s.len() as int)) {
            Some(m) => m,
            None => 0,
        }
    }
}

/// Decimal digits a coordinate needs: its digits, one more for a minus sign,
/// and the magnitude of its exponent.
pub open spec fn component_digits(s: Seq<u8>) -> nat {
    count_digits(s) + (if count_byte(s, 45) > 0 { 1nat } else { 0nat }) + exponent_magnitude(s)
}

pub open spec fn saturate(n: nat) -> u64 {
    if n > u64::MAX { u64::MAX } else { n as u64 }
}

/// Index of the first `b` in `s`, or -1.
pub open spec fn first_index_of(s: Seq<u8>, b: u8) -> int
    decreases s.len(),
{
    if s.len() == 0 {
        -1
    } else if s[0] == b {
        0
    } else {
        let k = first_index_of(s.subrange(1, s.len() as int), b);
        if k < 0 { -1 } else { k + 1 }
    }
}

/// The largest `component_digits` over the comma-separated parts of `s`.
pub open spec fn point_digits_spec(s: Seq<u8>) -> nat
    decreases s.len(),
{
    let k = first_index_of(s, 44);
    if k < 0 || k >= s.len() {
        component_digits(s)
    } else {
        let a = component_digits(s.subrange(0, k));
        let b = point_digits_spec(s.subrange(k + 1, s.len() as int));
        if a >= b { a } else { b }
    }
}

proof fn lemma_first_index_bounds(s: Seq<u8>, b: u8)
    ensures
        -1 <= first_index_of(s, b) < s.len(),
        first_index_of(s, b) >= 0 ==> s[first_index_of(s, b)] == b,
        forall|i: int| 0 <= i < s.len() && s[i] == b ==> first_index_of(s, b) >= 0
            && first_index_of(s, b) <= i,
    decreases s.len(),
{
    if s.len() > 0 && s[0] != b {
        let t = s.subrange(1, s.len() as int);
        lemma_first_index_bounds(t, b);
        assert forall|i: int| 0 <= i < s.len() && s[i] == b implies first_index_of(s, b) >= 0
            && first_index_of(s, b) <= i by {
            assert(t[i - 1] == s[i]);
        }
    }
}

/// Reads `s[start..end]` as a signed 64-bit decimal integer and gives its
/// magnitude.
fn parse_signed_magnitude(s: &[u8], start: usize, end: usize) -> (r: Option<u64>)
    requires
        start <= end <= s@.len(),
    ensures
        r matches Some(m) ==> signed_magnitude(s@.subrange(start as int, end as int)) == Some(
            m as nat,
        ),
        r is None ==> signed_magnitude(s@.subrange(start as int, end as int)) is None,
{
    let ghost whole = s@.subrange(start as int, end as int);
    let negative = start < end && s[start] == 45u8;
    let limit: u64 = if negative { 0x8000_0000_0000_0000 } else { 0x7fff_ffff_ffff_ffff };
    let mut i = start;
    if i < end && (s[i] == 43u8 || s[i] == 45u8) {
        i = i + 1;
    }
    let ghost d = s@.subrange(i as int, end as int);
    assert(d == signed_digits(whole));
    if i == end {
        return None;
    }
    let mut value: u64 = 0;
    let mut j = i;
    while j < end
        invariant
            start <= i <= j <= end <= s@.len(),
            d == s@.subrange(i as int, end as int),
            whole == s@.subrange(start as int, end as int),
            d == signed_digits(whole),
            limit == (if whole.len() > 0 && whole[0] == 45 {
                0x8000_0000_0000_0000u64
            } else {
                0x7fff_ffff_ffff_ffffu64
            }),
            forall|k: int| 0 <= k < j - i ==> is_digit(#[trigger] d[k]),
            value == decimal_value(d.take(j - i)),
            value <= limit,
            0x7fff_ffff_ffff_ffffu64 <= limit <= 0x8000_0000_0000_0000u64,
        decreases end - j,
    {
        let b = s[j];
        if b < 48u8 || b > 57u8 {
            proof {
                let k = j - i;
                assert(0 <= k < d.len() && !is_digit(d[k]));
                assert(!(forall|k2: int| 0 <= k2 < d.len() ==> is_digit(#[trigger] d[k2])));
                assert(signed_magnitude(whole) is None);
            }
            return None;
        }
        proof {
            assert(d.take(j - i + 1).drop_last() == d.take(j - i));
            assert(d.take(j - i + 1).last() == b);
        }
        let digit = (b - 48u8) as u64;
        if value > (limit - digit) / 10 {
            proof {
                assert(value * 10 + digit > limit) by (nonlinear_arith)
                    requires
                        value > (limit - digit) / 10,
                        digit <= limit,
                ;
                lemma_decimal_prefix_le(d, j - i + 1);
            }
            return None;
        }
        proof {
            assert(value * 10 + digit <= limit) by (nonlinear_arith)
                requires
                    value <= (limit - digit) / 10,
                    digit <= limit,
            ;
        }
        value = value * 10 + digit;
        j = j + 1;
    }
    proof {
        assert(d.take(j - i) == d);
    }
    Some(value)
}

/// Decimal digits that the coordinate `s[start..end]` needs, saturated.
fn component_digits_of(s: &[u8], start: usize, end: usize) -> (r: u64)
    requires
        start <= end <= s@.len(),
    ensures
        r == saturate(component_digits(s@.subrange(start as int, end as int))),
{
    let ghost t = s@.subrange(start as int, end as int);
    let mut digits: u64 = 0;
    let mut minus = false;
    let mut last_e: usize = end;
    let mut j = start;
    while j < end
        invariant
            start <= j <= end <= s@.len(),
            t == s@.subrange(start as int, end as int),
            digits == count_digits(t.take(j - start)),
            digits <= j - start,
            minus == (count_byte(t.take(j - start), 45) > 0),
            last_e == end ==> last_index_of(t.take(j - start), 101) == -1,
            last_e != end ==> start <= last_e < j && last_index_of(t.take(j - start), 101) == last_e
                - start,
        decreases end - j,
    {
        proof {
            assert(t.take(j - start + 1).drop_last() == t.take(j - start));
            assert(t.take(j - start + 1).last() == s@[j as int]);
        }
        let b = s[j];
        if b >= 48u8 && b <= 57u8 {
            digits = digits + 1;
        }
        if b == 45u8 {
            minus = true;
        }
        if b == 101u8 {
            last_e = j;
        }
        j = j + 1;
    }
    proof {
        assert(t.take(j - start) == t);
    }
    let exp: u64 = if last_e == end {
        0
    } else {
        proof {
            assert(t.subrange(last_e - start + 1, t.len() as int) == s@.subrange(
                last_e + 1,
                end as int,
            ));
        }
        match parse_signed_magnitude(s, last_e + 1, end) {
            Some(m) => m,
            None => 0,
        }
    };
    let extra: u128 = if minus { 1 } else { 0 };
    let total = digits as u128 + extra + exp as u128;
    if total > u64::MAX as u128 {
        u64::MAX
    } else {
        total as u64
    }
}

/// Decimal digits needed by a point written `re,im` (or by any
/// comma-separated list of coordinates): the most that any part needs.
pub fn point_digits(s: &[u8]) -> (r: u64)
    ensures
        r == saturate(point_digits_spec(s@)),
{
    let n = s.len();
    let mut best: u64 = 0;
    let mut start: usize = 0;
    let mut found = true;
    assert(s@.subrange(0, n as int) == s@);
    while found
        invariant
            n == s@.len(),
            start <= n,
            found ==> saturate(point_digits_spec(s@)) == if best >= saturate(
                point_digits_spec(s@.subrange(start as int, n as int)),
            ) {
                best
            } else {
                saturate(point_digits_spec(s@.subrange(start as int, n as int)))
            },
            !found ==> saturate(point_digits_spec(s@)) == best,
        decreases n - start + if found { 1int } else { 0int },
    {
        let ghost rest = s@.subrange(start as int, n as int);
        proof {
            lemma_first_index_bounds(rest, 44);
        }
        let mut k = start;
        while k < n && s[k] != 44u8
            invariant
                start <= k <= n,
                n == s@.len(),
                rest == s@.subrange(start as int, n as int),
                forall|i: int| start <= i < k ==> s@[i] != 44,
            decreases n - k,
        {
            k = k + 1;
        }
        proof {
            if k < n {
                assert(rest[k - start] == 44);
                assert forall|i: int| 0 <= i < k - start implies rest[i] != 44 by {
                    assert(rest[i] == s@[start + i]);
                }
                lemma_first_index_bounds(rest, 44);
                assert(first_index_of(rest, 44) == k - start);
                assert(rest.subrange(0, k - start) == s@.subrange(start as int, k as int));
                assert(rest.subrange(k - start + 1, rest.len() as int) == s@.subrange(
                    k + 1,
                    n as int,
                ));
            } else {
                assert forall|i: int| 0 <= i < rest.len() implies rest[i] != 44 by {
                    assert(rest[i] == s@[start + i]);
                }
                assert(first_index_of(rest, 44) < 0);
                assert(s@.subrange(start as int, k as int) == rest);
            }
        }
        let c = component_digits_of(s, start, k);
        if c > best {
            best = c;
        }
        if k < n {
            start = k + 1;
        } else {
            found = false;
        }
    }
    best
}

/// Length of the longer of the two bounds of `START,END`, or none when `s`
/// does not hold exactly one comma.
pub fn range_digits(s: &[u8]) -> (r: Option<usize>)
    ensures
        r is Some <==> count_byte(s@, 44) == 1,
        r matches Some(d) ==> ({
            let k = choose|k: int| 0 <= k < s@.len() && s@[k] == 44;
            d == if k >= s@.len() - k - 1 { k } else { s@.len() - k - 1 }
        }),
{
    let n = s.len();
    let mut count: usize = 0;
    let mut at: usize = 0;
    let mut i: usize = 0;
    while i < n
        invariant
            n == s@.len(),
            i <= n,
            count == count_byte(s@.take(i as int), 44),
            count <= i,
            count >= 1 ==> at < i && s@[at as int] == 44,
            count == 0 ==> forall|k: int| 0 <= k < i ==> s@[k] != 44,
            count == 1 ==> forall|k: int| 0 <= k < i && s@[k] == 44 ==> k == at,
        decreases n - i,
    {
        proof {
            assert(s@.take(i + 1).drop_last() == s@.take(i as int));
        }
        if s[i] == 44u8 {
            if count == 0 {
                at = i;
            }
            count = count + 1;
        }
        i = i + 1;
    }
    proof {
        assert(s@.take(n as int) == s@);
    }
    if count != 1 {
        return None;
    }
    let tail = n - at - 1;
    Some(if at >= tail { at } else { tail })
}

} // verus!
