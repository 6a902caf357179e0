//! The size prefix of a netstring: `size:`, where `size` is a decimal `u32`.

use vstd::prelude::*;

verus! {

/// The byte `:` that ends the size prefix of a netstring.
pub const COLON: u8 = 58;

/// The byte `,` that ends a netstring.
pub const COMMA: u8 = 44;

/// The byte `+`, which `u32`'s `FromStr` accepts in front of the digits.
pub const PLUS: u8 = 43;

/// The byte `0`.
pub const DIGIT_ZERO: u8 = 48;

/// The byte `9`.
pub const DIGIT_NINE: u8 = 57;

/// `b` is an ASCII decimal digit.
pub open spec fn is_digit(b: u8) -> bool {
    DIGIT_ZERO <= b <= DIGIT_NINE
}

/// Every byte of `s` is an ASCII decimal digit.
pub open spec fn all_digits(s: Seq<u8>) -> bool {
    forall|i: int| 0 <= i < s.len() ==> is_digit(#[trigger] s[i])
}

/// The value of the decimal numeral `s`, most significant digit first.
pub open spec fn digits_value(s: Seq<u8>) -> nat
    decreases s.len(),
{
    if s.len() == 0 {
        0
    } else {
        digits_value(s.drop_last()) * 10 + (s.last() - DIGIT_ZERO) as nat
    }
}

/// What `u32`'s `FromStr` gives for the text `s`: an optional `+`, then one or
/// more ASCII digits whose value fits in a `u32`; anything else is refused.
/// (Such text is ASCII, so it is also valid UTF-8.)
pub open spec fn parse_u32(s: Seq<u8>) -> Option<u32> {
    let digits = if s.len() > 0 && s[0] == PLUS {
        s.drop_first()
    } else {
        s
    };
    if digits.len() > 0 && all_digits(digits) && digits_value(digits) <= u32::MAX {
        Some(digits_value(digits) as u32)
    } else {
        None
    }
}

/// `i` is the index of the first `:` in `buf`.
pub open spec fn is_first_colon(buf: Seq<u8>, i: int) -> bool {
    &&& 0 <= i < buf.len()
    &&& buf[i] == COLON
    &&& forall|j: int| 0 <= j < i ==> buf[j] != COLON
}

/// The netstring size prefix at the start of `buf`: the text before the first
/// `:`, which must be non-empty and read as a `u32`, with the index of that `:`.
pub open spec fn spec_decode_netstring_size(buf: Seq<u8>) -> Option<(u32, usize)> {
    if exists|i: int| is_first_colon(buf, i) {
        let i = choose|i: int| is_first_colon(buf, i);
        if i == 0 {
            None
        } else {
            match parse_u32(buf.take(i)) {
                Some(size) => Some((size, i as usize)),
                None => None,
            }
        }
    } else {
        None
    }
}

/// The decimal numeral of `n` in ASCII, as `format!("{}", n)` writes it.
pub open spec fn decimal(n: nat) -> Seq<u8>
    decreases n,
{
    if n < 10 {
        seq![(DIGIT_ZERO + n) as u8]
    } else {
        decimal(n / 10) + seq![(DIGIT_ZERO + n % 10) as u8]
    }
}

/// Ten to the power `k`.
pub open spec fn pow10(k: nat) -> nat
    decreases k,
{
    if k == 0 {
        1
    } else {
        10 * pow10((k - 1) as nat)
    }
}

/// A prefix of a numeral never has a larger value than the numeral.
proof fn lemma_digits_value_prefix(s: Seq<u8>, k: int)
    requires
        all_digits(s),
        0 <= k <= s.len(),
    ensures
        digits_value(s.take(k)) <= digits_value(s),
    decreases s.len(),
{
    if k < s.len() {
        let t = s.drop_last();
        assert(all_digits(t)) by {
            assert forall|i: int| 0 <= i < t.len() implies is_digit(#[trigger] t[i]) by {
                assert(t[i] == s[i]);
            }
        }
        lemma_digits_value_prefix(t, k);
        assert(t.take(k) =~= s.take(k));
    } else {
        assert(s.take(k) =~= s);
    }
}

/// The numeral `decimal(n)` is made of digits and has the value `n`.
pub proof fn lemma_decimal(n: nat)
    ensures
        decimal(n).len() > 0,
        all_digits(decimal(n)),
        digits_value(decimal(n)) == n,
    decreases n,
{
    let d = decimal(n);
    if n < 10 {
        assert(d.drop_last() =~= Seq::<u8>::empty());
        assert(d.last() as int == DIGIT_ZERO + n);
        assert(digits_value(d.drop_last()) == 0);
    } else {
        assert(d.last() as int == DIGIT_ZERO + n % 10);
        assert((n / 10) * 10 + n % 10 == n) by (nonlinear_arith);
        lemma_decimal(n / 10);
        let p = decimal(n / 10);
        assert(d.drop_last() =~= p);
        assert forall|i: int| 0 <= i < d.len() implies is_digit(#[trigger] d[i]) by {
            if i < p.len() {
                assert(d[i] == p[i]);
            }
        }
    }
}

/// A number below `10^k` has at most `k` decimal digits.
pub proof fn lemma_decimal_len(n: nat, k: nat)
    requires
        1 <= k,
        n < pow10(k),
    ensures
        decimal(n).len() <= k,
    decreases k,
{
    if n >= 10 {
        reveal_with_fuel(pow10, 2);
        assert(k >= 2);
        let p = pow10((k - 1) as nat);
        assert(n / 10 < p) by (nonlinear_arith)
            requires
                n < 10 * p,
        ;
        lemma_decimal_len(n / 10, (k - 1) as nat);
    }
}

/// A `u32` has at most ten decimal digits.
pub proof fn lemma_decimal_u32_len(n: u32)
    ensures
        decimal(n as nat).len() <= 10,
{
    reveal_with_fuel(pow10, 11);
    assert(pow10(10) == 10_000_000_000);
    lemma_decimal_len(n as nat, 10);
}

/// Law: a size written in decimal and followed by `:` is read back as that
/// size, with the `:` right after its digits, whatever follows the `:`.
pub proof fn lemma_decode_formatted_size(n: u32, rest: Seq<u8>)
    ensures
        spec_decode_netstring_size(decimal(n as nat) + seq![COLON] + rest) == Some(
            (n, decimal(n as nat).len() as usize),
        ),
{
    let d = decimal(n as nat);
    let buf = d + seq![COLON] + rest;
    let c = d.len() as int;
    lemma_decimal(n as nat);
    assert forall|j: int| 0 <= j < c implies buf[j] != COLON by {
        assert(buf[j] == d[j]);
        assert(is_digit(d[j]));
    }
    assert(buf[c] == COLON);
    assert(is_first_colon(buf, c));
    let i = choose|i: int| is_first_colon(buf, i);
    assert(i == c);
    assert(buf.take(c) =~= d);
    assert(is_digit(d[0]));
}

/// The netstring that frames `data`: its length in decimal, `:`, the data and `,`.
pub open spec fn netstring(data: Seq<u8>) -> Seq<u8> {
    decimal(data.len()) + seq![COLON] + data + seq![COMMA]
}

/// Law: a buffer whose first byte is neither a digit nor `+` holds no
/// netstring size prefix.
pub proof fn lemma_decode_needs_leading_digit(buf: Seq<u8>)
    requires
        buf.len() > 0,
        !is_digit(buf[0]),
        buf[0] != PLUS,
    ensures
        spec_decode_netstring_size(buf) is None,
{
    if exists|i: int| is_first_colon(buf, i) {
        let i = choose|i: int| is_first_colon(buf, i);
        if i > 0 {
            let text = buf.take(i);
            assert(text[0] == buf[0]);
            assert(!all_digits(text));
        }
    }
}

/// Attempt to decode a netstring size prefix from a byte buffer.
///
/// Returns `Some((size, colon_index))` if the buffer contains a valid netstring size prefix,
/// where `size` is the u32 size and `colon_index` is the index of the ':' delimiter.
/// Returns `None` if the buffer doesn't contain a valid netstring prefix.
pub fn decode_netstring_size(buf: &[u8]) -> (r: Option<(u32, usize)>)
    ensures
        r == spec_decode_netstring_size(buf@),
        r matches Some((_, colon)) ==> 0 < colon < buf@.len() && buf@[colon as int] == COLON,
{
    // Find the position of the first ':' character
    let mut colon: usize = 0;
    while colon < buf.len() && buf[colon] != COLON
        invariant
            colon <= buf@.len(),
            forall|j: int| 0 <= j < colon ==> buf@[j] != COLON,
        decreases buf@.len() - colon,
    {
        colon = colon + 1;
    }
    if colon == buf.len() {
        assert(!exists|i: int| is_first_colon(buf@, i));
        return None;
    }
    assert(is_first_colon(buf@, colon as int));
    assert((choose|i: int| is_first_colon(buf@, i)) == colon as int);

    // Nothing before the colon means invalid netstring
    if colon == 0 {
        return None;
    }

    // Read the bytes before ':' as a decimal u32
    let ghost text = buf@.take(colon as int);
    let start: usize = if buf[0] == PLUS {
        1
    } else {
        0
    };
    let ghost digits = buf@.subrange(start as int, colon as int);
    assert(digits =~= (if text.len() > 0 && text[0] == PLUS {
        text.drop_first()
    } else {
        text
    }));
    if start == colon {
        return None;
    }
    assert(spec_decode_netstring_size(buf@) == (if all_digits(digits) && digits_value(digits)
        <= u32::MAX {
        Some((digits_value(digits) as u32, colon))
    } else {
        None
    }));
    let mut value: u64 = 0;
    let mut k: usize = start;
    while k < colon
        invariant
            start <= k <= colon < buf@.len(),
            digits == buf@.subrange(start as int, colon as int),
            spec_decode_netstring_size(buf@) == (if all_digits(digits) && digits_value(digits)
                <= u32::MAX {
                Some((digits_value(digits) as u32, colon))
            } else {
                None
            }),
            all_digits(buf@.subrange(start as int, k as int)),
            value == digits_value(buf@.subrange(start as int, k as int)),
            value <= u32::MAX,
        decreases colon - k,
    {
        let b = buf[k];
        assert(digits[k - start] == b);
        if b < DIGIT_ZERO || b > DIGIT_NINE {
            assert(!all_digits(digits));
            return None;
        }
        let ghost next_prefix = buf@.subrange(start as int, k + 1);
        assert(next_prefix.drop_last() =~= buf@.subrange(start as int, k as int));
        let next: u64 = value * 10 + (b - DIGIT_ZERO) as u64;
        assert(next == digits_value(next_prefix));
        if next > u32::MAX as u64 {
            proof {
                if all_digits(digits) {
                    lemma_digits_value_prefix(digits, k + 1 - start);
                    assert(digits.take(k + 1 - start) =~= next_prefix);
                }
            }
            return None;
        }
        assert(all_digits(next_prefix)) by {
            assert forall|i: int| 0 <= i < next_prefix.len() implies is_digit(
                #[trigger] next_prefix[i],
            ) by {
                if i < next_prefix.len() - 1 {
                    assert(next_prefix[i] == buf@.subrange(start as int, k as int)[i]);
                }
            }
        }
        value = next;
        k = k + 1;
    }
    Some((value as u32, colon))
}

} // verus!
