use vstd::prelude::*;
use vstd::string::StringSliceAdditionalSpecFns;

verus! {

/// ASCII `0`.
pub const ASCII_ZERO: u8 = 48;

/// The ASCII byte of the decimal digit `d` (0 to 9).
pub open spec fn digit_byte(d: int) -> u8 {
    (48 + d) as u8
}

/// The decimal representation of `n` as ASCII bytes, most significant digit
/// first, without leading zeros ("0" for zero).
pub open spec fn decimal_digits(n: nat) -> Seq<u8>
    decreases n,
{
    if n < 10 {
        seq![digit_byte(n as int)]
    } else {
        decimal_digits(n / 10).push(digit_byte((n % 10) as int))
    }
}

/// The decimal digits of `n` as ASCII bytes, least significant digit first;
/// empty for zero.
pub open spec fn reversed_digits(n: nat) -> Seq<u8>
    decreases n,
{
    if n == 0 {
        Seq::empty()
    } else {
        seq![digit_byte((n % 10) as int)] + reversed_digits(n / 10)
    }
}

/// The number that a sequence of ASCII decimal digits denotes.
pub open spec fn decimal_value(s: Seq<u8>) -> int
    decreases s.len(),
{
    if s.len() == 0 {
        0
    } else {
        decimal_value(s.drop_last()) * 10 + (s.last() - 48)
    }
}

/// Every byte of `s` is an ASCII decimal digit.
pub open spec fn is_decimal(s: Seq<u8>) -> bool {
    forall|i: int| 0 <= i < s.len() ==> 48 <= #[trigger] s[i] <= 57
}

/// Ten to the power `k`.
pub open spec fn pow10(k: nat) -> nat
    decreases k,
{
    if k == 0 {
        1
    } else {
        10 * pow10((k - 1) as nat)
    }
}

/// The text shown for an amount given in cents: an optional `-`, then `$`,
/// the whole dollars in decimal, `.` and exactly two digits of cents.
pub open spec fn amount_text(amount_cents: int) -> Seq<u8> {
    let magnitude: nat = if amount_cents < 0 {
        (-amount_cents) as nat
    } else {
        amount_cents as nat
    };
    let sign: Seq<u8> = if amount_cents < 0 {
        seq![45u8, 36u8]
    } else {
        seq![36u8]
    };
    sign + decimal_digits(magnitude / 100) + seq![
        46u8,
        digit_byte(((magnitude % 100) / 10) as int),
        digit_byte((magnitude % 10) as int),
    ]
}

/// Every byte of `s` is ASCII.
pub open spec fn is_ascii_bytes(s: Seq<u8>) -> bool {
    forall|i: int| 0 <= i < s.len() ==> #[trigger] s[i] < 128
}

/// ASCII bytes are valid UTF-8.
pub proof fn lemma_ascii_valid_utf8(bytes: Seq<u8>)
    requires
        is_ascii_bytes(bytes),
    ensures
        vstd::utf8::valid_utf8(bytes),
{
    assert(bytes.subrange(0, 0) =~= Seq::<u8>::empty());
    assert(vstd::utf8::partial_valid_utf8(bytes, 0));
    assert forall|i: int| 0 <= i < bytes.len() implies
        #[trigger] vstd::utf8::is_leading_byte_width_1(bytes[i]) by {
        assert(bytes[i] < 128);
    }
    vstd::utf8::partial_valid_utf8_extend_ascii_block(bytes, 0, bytes.len() as int);
    assert(bytes.subrange(0, bytes.len() as int) =~= bytes);
}

/// Reads `bytes` as UTF-8 text through `core::str::from_utf8`: as its
/// documentation says, the result is a string exactly when the bytes are valid
/// UTF-8, and that string is made of those bytes.
#[verifier::external_body]
pub(crate) fn utf8_str(bytes: &[u8]) -> (text: Option<&str>)
    ensures
        text is Some <==> vstd::utf8::valid_utf8(bytes@),
        text matches Some(t) ==> t.spec_bytes() == bytes@,
{
    core::str::from_utf8(bytes).ok()
}

proof fn lemma_digit_byte(d: int)
    requires
        0 <= d < 10,
    ensures
        digit_byte(d) == 48 + d,
        48 <= digit_byte(d) <= 57,
{
}

proof fn lemma_div_mod_10(n: nat)
    ensures
        n == (n / 10) * 10 + n % 10,
        n % 10 < 10,
        n >= 10 ==> 0 < n / 10 < n,
        n < 10 ==> n / 10 == 0 && n % 10 == n,
{
    assert(n == (n / 10) * 10 + n % 10) by (nonlinear_arith);
    assert(n % 10 < 10) by (nonlinear_arith);
    assert(n >= 10 ==> 0 < n / 10 < n) by (nonlinear_arith);
    assert(n < 10 ==> n / 10 == 0 && n % 10 == n) by (nonlinear_arith);
}

/// The digits of a number, read least significant first, are its decimal
/// representation reversed.
pub proof fn lemma_reversed_digits(n: nat)
    requires
        n > 0,
    ensures
        reversed_digits(n).reverse() == decimal_digits(n),
    decreases n,
{
    lemma_div_mod_10(n);
    let d = digit_byte((n % 10) as int);
    if n < 10 {
        assert(reversed_digits(n / 10) =~= Seq::<u8>::empty());
        assert(reversed_digits(n) =~= seq![d]);
        assert(reversed_digits(n).reverse() =~= seq![d]);
    } else {
        lemma_reversed_digits(n / 10);
        assert((seq![d] + reversed_digits(n / 10)).reverse() =~= reversed_digits(
            n / 10,
        ).reverse().push(d));
    }
}

/// A number below `10^k` has at most `k` digits.
pub proof fn lemma_reversed_digits_len(n: nat, k: nat)
    requires
        n < pow10(k),
    ensures
        reversed_digits(n).len() <= k,
    decreases k,
{
    if n != 0 {
        assert(k > 0);
        let p = pow10((k - 1) as nat);
        assert(n / 10 < p) by (nonlinear_arith)
            requires
                n < 10 * p,
        ;
        lemma_reversed_digits_len(n / 10, (k - 1) as nat);
    }
}

/// Every `u64` has at most twenty decimal digits.
pub proof fn lemma_u64_digits_len(n: u64)
    ensures
        reversed_digits(n as nat).len() <= 20,
        decimal_digits(n as nat).len() <= 20,
{
    reveal_with_fuel(pow10, 21);
    assert(pow10(20) == 100000000000000000000nat);
    lemma_reversed_digits_len(n as nat, 20);
    if n > 0 {
        lemma_reversed_digits(n as nat);
    }
}

/// Decimal formatting is faithful: the digits are ASCII decimal digits,
/// there is no leading zero, and reading them back gives the number.
pub proof fn lemma_decimal_roundtrip(n: nat)
    ensures
        decimal_value(decimal_digits(n)) == n,
        is_decimal(decimal_digits(n)),
        decimal_digits(n).len() >= 1,
        n >= 10 ==> decimal_digits(n)[0] != 48u8,
    decreases n,
{
    lemma_div_mod_10(n);
    if n < 10 {
        lemma_digit_byte(n as int);
        let s = decimal_digits(n);
        assert(s.drop_last() =~= Seq::<u8>::empty());
        assert(decimal_value(s.drop_last()) == 0);
        assert(s.last() == 48 + n);
        assert(decimal_value(s) == decimal_value(s.drop_last()) * 10 + (s.last() - 48));
    } else {
        lemma_decimal_roundtrip(n / 10);
        lemma_digit_byte((n % 10) as int);
        let s = decimal_digits(n);
        assert(s.drop_last() =~= decimal_digits(n / 10));
        assert(s.last() == 48 + n % 10);
        assert(decimal_value(s) == decimal_value(s.drop_last()) * 10 + (s.last() - 48));
        if n / 10 >= 10 {
        } else {
            lemma_digit_byte((n / 10) as int);
        }
    }
}

/// Two numbers with the same decimal representation are equal.
pub proof fn lemma_decimal_digits_injective(a: nat, b: nat)
    requires
        decimal_digits(a) == decimal_digits(b),
    ensures
        a == b,
{
    lemma_decimal_roundtrip(a);
    lemma_decimal_roundtrip(b);
}

/// Writes the decimal digits of `value` at the start of `out` and returns how
/// many were written; the rest of `out` is left as it was.
pub fn nv_format_unsigned(value: u64, out: &mut [u8; 20]) -> (len: usize)
    ensures
        len == decimal_digits(value as nat).len(),
        1 <= len <= 20,
        final(out)@.subrange(0, len as int) == decimal_digits(value as nat),
        final(out)@.subrange(len as int, 20) == old(out)@.subrange(len as int, 20),
{
    proof {
        lemma_u64_digits_len(value);
    }
    if value == 0 {
        out[0] = ASCII_ZERO;
        assert(out@.subrange(0, 1) =~= decimal_digits(0));
        assert(out@.subrange(1, 20) =~= old(out)@.subrange(1, 20));
        return 1;
    }
    let ghost init = out@;
    let ghost low = reversed_digits(value as nat);
    let mut rest: u64 = value;
    let mut len: usize = 0;
    assert(out@.subrange(0, 0) + low =~= low);
    while rest != 0
        invariant
            low == reversed_digits(value as nat),
            init.len() == 20,
            low.len() <= 20,
            len + reversed_digits(rest as nat).len() == low.len(),
            out@.subrange(0, len as int) + reversed_digits(rest as nat) == low,
            forall|j: int| len <= j < 20 ==> out@[j] == init[j],
        decreases rest,
    {
        proof {
            lemma_div_mod_10(rest as nat);
        }
        let ghost before = out@;
        let ghost d = digit_byte((rest % 10) as int);
        assert(reversed_digits(rest as nat) == seq![d] + reversed_digits((rest / 10) as nat));
        out[len] = ASCII_ZERO + (rest % 10) as u8;
        assert(out@.subrange(0, len + 1) =~= before.subrange(0, len as int).push(d));
        assert(out@.subrange(0, len + 1) + reversed_digits((rest / 10) as nat) =~= before.subrange(
            0,
            len as int,
        ) + (seq![d] + reversed_digits((rest / 10) as nat)));
        len += 1;
        rest = rest / 10;
    }
    assert(out@.subrange(0, len as int) =~= low);
    proof {
        lemma_reversed_digits(value as nat);
    }
    let ghost mid = out@;
    let mut left: usize = 0;
    let mut right: usize = len - 1;
    while left < right
        invariant
            1 <= len <= 20,
            low.len() == len,
            init.len() == 20,
            mid.len() == 20,
            forall|j: int| 0 <= j < len ==> mid[j] == low[j],
            forall|j: int| len <= j < 20 ==> mid[j] == init[j],
            left + right == len - 1,
            right < len,
            forall|j: int| 0 <= j < left ==> out@[j] == low[len - 1 - j],
            forall|j: int| right < j < len ==> out@[j] == low[len - 1 - j],
            forall|j: int| left <= j <= right ==> out@[j] == low[j],
            forall|j: int| len <= j < 20 ==> out@[j] == init[j],
        decreases right + 1 - left,
    {
        let t = out[left];
        out[left] = out[right];
        out[right] = t;
        left += 1;
        right -= 1;
    }
    assert(out@.subrange(0, len as int) =~= low.reverse());
    assert(out@.subrange(len as int, 20) =~= old(out)@.subrange(len as int, 20));
    len
}

/// Reads money text back: a leading `-` makes it negative, the bytes after
/// the `$` and before the last three are the dollars, the last two bytes the
/// cents.
pub open spec fn parse_amount_text(text: Seq<u8>) -> int {
    let negative = text.len() > 0 && text[0] == 45u8;
    let start: int = if negative {
        2
    } else {
        1
    };
    let dollars = decimal_value(text.subrange(start, text.len() - 3));
    let cents = (text[text.len() - 2] - 48) * 10 + (text[text.len() - 1] - 48);
    let magnitude = dollars * 100 + cents;
    if negative {
        -magnitude
    } else {
        magnitude
    }
}

/// Money text is faithful: it starts with `-` exactly for negative amounts,
/// has `$` after the sign and `.` before two cent digits, and reads back to
/// the amount.
pub proof fn lemma_amount_text_roundtrip(a: int)
    ensures
        amount_text(a).len() >= 5,
        (amount_text(a)[0] == 45u8) <==> a < 0,
        amount_text(a)[if a < 0 {
            1int
        } else {
            0int
        }] == 36u8,
        amount_text(a)[amount_text(a).len() - 3] == 46u8,
        parse_amount_text(amount_text(a)) == a,
{
    let m: nat = if a < 0 {
        (-a) as nat
    } else {
        a as nat
    };
    let t = amount_text(a);
    let d = decimal_digits(m / 100);
    lemma_decimal_roundtrip(m / 100);
    let p: int = if a < 0 {
        2
    } else {
        1
    };
    assert(t.len() == p + d.len() + 3);
    assert(t.subrange(p, t.len() - 3) =~= d);
    assert(m == 100 * (m / 100) + 10 * ((m % 100) / 10) + m % 10 && (m % 100) / 10 < 10 && m % 10
        < 10) by (nonlinear_arith);
    lemma_digit_byte(((m % 100) / 10) as int);
    lemma_digit_byte((m % 10) as int);
    assert(t[t.len() - 2] == digit_byte(((m % 100) / 10) as int));
    assert(t[t.len() - 1] == digit_byte((m % 10) as int));
}

/// Distinct amounts are shown as distinct text: the text of an amount
/// determines the amount.
pub proof fn lemma_amount_text_injective(a: int, b: int)
    requires
        amount_text(a) == amount_text(b),
    ensures
        a == b,
{
    let ma: nat = if a < 0 {
        (-a) as nat
    } else {
        a as nat
    };
    let mb: nat = if b < 0 {
        (-b) as nat
    } else {
        b as nat
    };
    let ta = amount_text(a);
    let tb = amount_text(b);
    let da = decimal_digits(ma / 100);
    let db = decimal_digits(mb / 100);
    assert(ta[0] == if a < 0 {
        45u8
    } else {
        36u8
    });
    assert(tb[0] == if b < 0 {
        45u8
    } else {
        36u8
    });
    assert((a < 0) == (b < 0));
    let p: int = if a < 0 {
        2
    } else {
        1
    };
    assert(ta.len() == p + da.len() + 3);
    assert(tb.len() == p + db.len() + 3);
    assert(da.len() == db.len());
    assert(ta.subrange(p, p + da.len()) =~= da);
    assert(tb.subrange(p, p + db.len()) =~= db);
    lemma_decimal_digits_injective(ma / 100, mb / 100);
    let q = p + da.len();
    assert(ta[q + 1] == digit_byte(((ma % 100) / 10) as int));
    assert(tb[q + 1] == digit_byte(((mb % 100) / 10) as int));
    assert(ta[q + 2] == digit_byte((ma % 10) as int));
    assert(tb[q + 2] == digit_byte((mb % 10) as int));
    assert(ma == 100 * (ma / 100) + 10 * ((ma % 100) / 10) + ma % 10 && (ma % 100) / 10 < 10
        && ma % 10 < 10) by (nonlinear_arith);
    assert(mb == 100 * (mb / 100) + 10 * ((mb % 100) / 10) + mb % 10 && (mb % 100) / 10 < 10
        && mb % 10 < 10) by (nonlinear_arith);
    lemma_digit_byte(((ma % 100) / 10) as int);
    lemma_digit_byte(((mb % 100) / 10) as int);
    lemma_digit_byte((ma % 10) as int);
    lemma_digit_byte((mb % 10) as int);
    assert(ma == mb);
}

/// Writes the text of `amount_cents` (see `amount_text`) at the start of
/// `out` and returns its length. When `out` is too short for it, nothing is
/// written and 0 is returned.
pub fn nv_format_amount_cents(amount_cents: i64, out: &mut [u8]) -> (written: usize)
    ensures
        amount_text(amount_cents as int).len() <= old(out)@.len() ==> {
            &&& written == amount_text(amount_cents as int).len()
            &&& final(out)@ == amount_text(amount_cents as int) + old(out)@.subrange(
                written as int,
                old(out)@.len() as int,
            )
        },
        amount_text(amount_cents as int).len() > old(out)@.len() ==> {
            &&& written == 0
            &&& final(out)@ == old(out)@
        },
        written > 0 ==> (final(out)@[0] == 45u8 <==> amount_cents < 0),
        written > 0 ==> parse_amount_text(final(out)@.subrange(0, written as int))
            == amount_cents,
{
    proof {
        lemma_amount_text_roundtrip(amount_cents as int);
    }
    let negative = amount_cents < 0;
    let magnitude: u64 = if negative {
        (-(amount_cents + 1)) as u64 + 1
    } else {
        amount_cents as u64
    };
    let dollars = magnitude / 100;
    let cents = (magnitude % 100) as u8;

    let prefix_len: usize = if negative {
        2
    } else {
        1
    };
    let mut digits = [0u8; 20];
    let digit_count = nv_format_unsigned(dollars, &mut digits);
    let required = prefix_len + digit_count + 3;
    let ghost text = amount_text(amount_cents as int);
    let ghost m: nat = magnitude as nat;
    proof {
        assert(m == if amount_cents < 0 {
            (-amount_cents) as nat
        } else {
            amount_cents as nat
        });
        assert(text.len() == required);
    }
    if required > out.len() {
        return 0;
    }
    let ghost init = out@;
    let mut pos: usize = 0;
    if negative {
        out[pos] = 45;
        pos += 1;
    }
    out[pos] = 36;
    pos += 1;
    assert(pos == prefix_len);
    let mut k: usize = 0;
    while k < digit_count
        invariant
            k <= digit_count,
            digit_count <= 20,
            pos == prefix_len,
            prefix_len + digit_count + 3 <= out@.len(),
            out@.len() == init.len(),
            digits@.subrange(0, digit_count as int) == decimal_digits(dollars as nat),
            forall|j: int| 0 <= j < pos ==> out@[j] == text[j],
            forall|j: int| pos <= j < pos + k ==> out@[j] == text[j],
            forall|j: int| pos + digit_count <= j < init.len() ==> out@[j] == init[j],
            text == amount_text(amount_cents as int),
            text.len() == required,
            required == prefix_len + digit_count + 3,
            prefix_len == (if negative { 2usize } else { 1usize }),
            negative == (amount_cents < 0),
            dollars == magnitude / 100,
            m == magnitude,
            m == if amount_cents < 0 {
                (-amount_cents) as nat
            } else {
                amount_cents as nat
            },
        decreases digit_count - k,
    {
        assert(digits@[k as int] == digits@.subrange(0, digit_count as int)[k as int]);
        assert(text[pos + k] == decimal_digits(dollars as nat)[k as int]);
        out[pos + k] = digits[k];
        k += 1;
    }
    pos += digit_count;
    out[pos] = 46;
    out[pos + 1] = ASCII_ZERO + cents / 10;
    out[pos + 2] = ASCII_ZERO + cents % 10;
    proof {
        assert(cents == m % 100);
        assert(out@.subrange(0, required as int) =~= text);
        assert(out@ =~= text + init.subrange(required as int, init.len() as int));
        lemma_amount_text_roundtrip(amount_cents as int);
    }
    required
}

} // verus!
