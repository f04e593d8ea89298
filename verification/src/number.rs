//! Integer literals in a radix, and the grammar of floating-point literals.
//!
//! An integer is an optional sign followed by digits of the radix; letters
//! count as digits from ten upwards, in either case. A floating-point
//! literal is only checked against its grammar: the library keeps its text.

use vstd::prelude::*;

verus! {

/// The value of one digit in the radix, if the byte is such a digit.
pub open spec fn digit_of(c: u8, radix: int) -> Option<int> {
    let d: int = if 48 <= c <= 57 {
        c - 48
    } else if 97 <= c <= 122 {
        c - 97 + 10
    } else if 65 <= c <= 90 {
        c - 65 + 10
    } else {
        36
    };
    if d < radix {
        Some(d)
    } else {
        None
    }
}

/// The number that a run of digits denotes, most significant digit first;
/// `None` where a byte is no digit of the radix. The empty run denotes 0.
pub open spec fn digits_value(s: Seq<u8>, radix: int) -> Option<int>
    decreases s.len(),
{
    if s.len() == 0 {
        Some(0)
    } else {
        match (digits_value(s.drop_last(), radix), digit_of(s.last(), radix)) {
            (Some(v), Some(d)) => Some(v * radix + d),
            _ => None,
        }
    }
}

/// An unsigned integer literal: an optional `+`, then at least one digit,
/// and a value that fits in 128 bits.
pub open spec fn parse_unsigned(s: Seq<u8>, radix: int) -> Option<u128> {
    let body = if s.len() > 0 && s[0] == 43 {
        s.drop_first()
    } else {
        s
    };
    if body.len() == 0 {
        None
    } else {
        match digits_value(body, radix) {
            Some(v) => if v <= u128::MAX {
                Some(v as u128)
            } else {
                None
            },
            None => None,
        }
    }
}

/// A signed integer literal: an optional `+` or `-`, then at least one digit,
/// and a value that fits in 128 bits with its sign.
pub open spec fn parse_signed(s: Seq<u8>, radix: int) -> Option<i128> {
    let negative = s.len() > 0 && s[0] == 45;
    let body = if s.len() > 0 && (s[0] == 43 || s[0] == 45) {
        s.drop_first()
    } else {
        s
    };
    if body.len() == 0 {
        None
    } else {
        match digits_value(body, radix) {
            Some(v) => if negative {
                if -v >= i128::MIN {
                    Some((-v) as i128)
                } else {
                    None
                }
            } else {
                if v <= i128::MAX {
                    Some(v as i128)
                } else {
                    None
                }
            },
            None => None,
        }
    }
}

/// A run of digits denotes no negative number, and each of its prefixes
/// denotes a number that is no larger.
pub proof fn lemma_digits_prefix(s: Seq<u8>, k: int, radix: int)
    requires
        0 <= k <= s.len(),
        radix >= 1,
    ensures
        digits_value(s, radix) is Some ==> digits_value(s.take(k), radix) is Some && 0
            <= digits_value(s.take(k), radix).unwrap() <= digits_value(s, radix).unwrap(),
    decreases s.len(),
{
    if digits_value(s, radix) is Some {
        if s.len() == 0 {
            assert(s.take(k) =~= s);
        } else {
            let front = s.drop_last();
            let v = digits_value(front, radix).unwrap();
            let d = digit_of(s.last(), radix).unwrap();
            lemma_digits_prefix(front, front.len() as int, radix);
            assert(front.take(front.len() as int) =~= front);
            assert(0 <= v);
            assert(v * radix >= v) by (nonlinear_arith)
                requires
                    v >= 0,
                    radix >= 1,
            ;
            if k == s.len() {
                assert(s.take(k) =~= s);
            } else {
                lemma_digits_prefix(front, k, radix);
                assert(front.take(k) =~= s.take(k));
            }
        }
    }
}

/// The bytes of a run of digits are all ASCII.
pub proof fn lemma_digits_ascii(s: Seq<u8>, radix: int)
    requires
        radix <= 36,
        digits_value(s, radix) is Some,
    ensures
        forall|i: int| 0 <= i < s.len() ==> #[trigger] s[i] < 128,
    decreases s.len(),
{
    if s.len() > 0 {
        lemma_digits_ascii(s.drop_last(), radix);
        assert(digit_of(s.last(), radix) is Some);
        assert(s[s.len() - 1] < 128);
        assert forall|i: int| 0 <= i < s.len() implies #[trigger] s[i] < 128 by {
            if i < s.len() - 1 {
                assert(s[i] == s.drop_last()[i]);
            }
        }
    }
}

/// The bytes of an unsigned integer literal are all ASCII.
pub proof fn lemma_unsigned_ascii(s: Seq<u8>, radix: int)
    requires
        radix <= 36,
        parse_unsigned(s, radix) is Some,
    ensures
        forall|i: int| 0 <= i < s.len() ==> #[trigger] s[i] < 128,
{
    if s.len() > 0 && s[0] == 43 {
        lemma_digits_ascii(s.drop_first(), radix);
        assert forall|i: int| 0 <= i < s.len() implies #[trigger] s[i] < 128 by {
            if i >= 1 {
                assert(s[i] == s.drop_first()[i - 1]);
            }
        }
    } else {
        lemma_digits_ascii(s, radix);
    }
}

/// Reads one digit of the radix.
fn digit(c: u8, radix: u32) -> (r: Option<u32>)
    requires
        2 <= radix <= 36,
    ensures
        match digit_of(c, radix as int) {
            Some(d) => r == Some(d as u32),
            None => r is None,
        },
{
    let d: u32 = if 48 <= c && c <= 57 {
        (c - 48) as u32
    } else if 97 <= c && c <= 122 {
        (c - 97) as u32 + 10
    } else if 65 <= c && c <= 90 {
        (c - 65) as u32 + 10
    } else {
        36
    };
    if d < radix {
        Some(d)
    } else {
        None
    }
}

/// Reads the digits `bytes[from..end]`; `None` where one is no digit or the
/// value leaves 128 bits.
fn digits_u128(bytes: &[u8], from: usize, end: usize, radix: u32) -> (r: Option<u128>)
    requires
        from <= end <= bytes@.len(),
        2 <= radix <= 36,
    ensures
        match digits_value(bytes@.subrange(from as int, end as int), radix as int) {
            Some(v) => if v <= u128::MAX {
                r == Some(v as u128)
            } else {
                r is None
            },
            None => r is None,
        },
{
    let ghost body = bytes@.subrange(from as int, end as int);
    let mut acc: u128 = 0;
    let mut i: usize = from;
    assert(body.take(0) =~= Seq::<u8>::empty());
    while i < end
        invariant
            from <= i <= end <= bytes@.len(),
            2 <= radix <= 36,
            body == bytes@.subrange(from as int, end as int),
            digits_value(body.take(i - from), radix as int) == Some(acc as int),
        decreases end - i,
    {
        let ghost before = body.take(i - from);
        let ghost after = body.take(i - from + 1);
        proof {
            assert(after.drop_last() =~= before);
            assert(after.last() == bytes@[i as int]);
            lemma_digits_prefix(body, i - from + 1, radix as int);
        }
        let step = match digit(bytes[i], radix) {
            None => None,
            Some(d) => match acc.checked_mul(radix as u128) {
                None => None,
                Some(m) => m.checked_add(d as u128),
            },
        };
        match step {
            None => {
                return None;
            },
            Some(a) => {
                acc = a;
            },
        }
        i = i + 1;
    }
    assert(body.take(end - from) =~= body);
    Some(acc)
}

/// Reads an unsigned integer literal in `bytes[start..end]`.
pub fn unsigned_from_radix(bytes: &[u8], start: usize, end: usize, radix: u32) -> (r: Option<u128>)
    requires
        start <= end <= bytes@.len(),
        2 <= radix <= 36,
    ensures
        r == parse_unsigned(bytes@.subrange(start as int, end as int), radix as int),
{
    let ghost s = bytes@.subrange(start as int, end as int);
    let from: usize = if start < end && bytes[start] == 43 {
        start + 1
    } else {
        start
    };
    proof {
        if from == start {
            assert(bytes@.subrange(from as int, end as int) =~= s);
        } else {
            assert(bytes@.subrange(from as int, end as int) =~= s.drop_first());
        }
    }
    if from == end {
        None
    } else {
        digits_u128(bytes, from, end, radix)
    }
}

/// Reads a signed integer literal in `bytes[start..end]`.
pub fn signed_from_radix(bytes: &[u8], start: usize, end: usize, radix: u32) -> (r: Option<i128>)
    requires
        start <= end <= bytes@.len(),
        2 <= radix <= 36,
    ensures
        r == parse_signed(bytes@.subrange(start as int, end as int), radix as int),
{
    let ghost s = bytes@.subrange(start as int, end as int);
    let negative = start < end && bytes[start] == 45;
    let from: usize = if start < end && (bytes[start] == 43 || bytes[start] == 45) {
        start + 1
    } else {
        start
    };
    proof {
        if from == start {
            assert(bytes@.subrange(from as int, end as int) =~= s);
        } else {
            assert(bytes@.subrange(from as int, end as int) =~= s.drop_first());
        }
        lemma_digits_prefix(bytes@.subrange(from as int, end as int), 0, radix as int);
    }
    if from == end {
        return None;
    }
    match digits_u128(bytes, from, end, radix) {
        None => None,
        Some(magnitude) => {
            if negative {
                if magnitude <= 0x7fff_ffff_ffff_ffff_ffff_ffff_ffff_ffff {
                    Some(-(magnitude as i128))
                } else if magnitude == 0x8000_0000_0000_0000_0000_0000_0000_0000 {
                    Some(i128::MIN)
                } else {
                    None
                }
            } else {
                if magnitude <= 0x7fff_ffff_ffff_ffff_ffff_ffff_ffff_ffff {
                    Some(magnitude as i128)
                } else {
                    None
                }
            }
        },
    }
}

/// The lower-case form of an ASCII letter; any other byte is unchanged.
pub open spec fn lower(c: u8) -> u8 {
    if 65 <= c <= 90 {
        (c + 32) as u8
    } else {
        c
    }
}

/// Whether `s` is the lower-case word `word`, whatever the case of its letters.
pub open spec fn is_word(s: Seq<u8>, word: Seq<u8>) -> bool {
    s.len() == word.len() && forall|i: int| 0 <= i < s.len() ==> lower(#[trigger] s[i]) == word[i]
}

pub open spec fn is_digit(c: u8) -> bool {
    48 <= c <= 57
}

pub open spec fn is_sign(c: u8) -> bool {
    c == 43 || c == 45
}

/// The index of the first byte at or after `i` that is no decimal digit.
pub open spec fn digits_end(s: Seq<u8>, i: int) -> int
    decreases s.len() - i,
{
    if 0 <= i < s.len() && is_digit(s[i]) {
        digits_end(s, i + 1)
    } else {
        i
    }
}

/// An unsigned decimal number: digits with an optional point among them, at
/// least one digit in all, then an optional exponent (`e` or `E`, an
/// optional sign, at least one digit).
pub open spec fn is_number_text(s: Seq<u8>) -> bool {
    let a = digits_end(s, 0);
    let pointed = a < s.len() && s[a] == 46;
    let b = if pointed {
        digits_end(s, a + 1)
    } else {
        a
    };
    let digits = if pointed {
        b - 1
    } else {
        b
    };
    let c = if b + 1 < s.len() && is_sign(s[b + 1]) {
        b + 2
    } else {
        b + 1
    };
    &&& digits > 0
    &&& (b == s.len() || ((s[b] == 101 || s[b] == 69) && c < s.len() && digits_end(s, c)
        == s.len()))
}

/// The grammar of a floating-point literal: an optional sign, then `inf`,
/// `infinity` or `nan` in any case, or an unsigned decimal number.
pub open spec fn is_float_text(s: Seq<u8>) -> bool {
    let t = if s.len() > 0 && is_sign(s[0]) {
        s.drop_first()
    } else {
        s
    };
    ||| is_word(t, seq![105u8, 110u8, 102u8])
    ||| is_word(t, seq![105u8, 110u8, 102u8, 105u8, 110u8, 105u8, 116u8, 121u8])
    ||| is_word(t, seq![110u8, 97u8, 110u8])
    ||| is_number_text(t)
}

/// Whether `bytes[start..end]` is `word`, whatever the case of its letters.
pub fn word_matches(bytes: &[u8], start: usize, end: usize, word: &[u8]) -> (r: bool)
    requires
        start <= end <= bytes@.len(),
    ensures
        r == is_word(bytes@.subrange(start as int, end as int), word@),
{
    let ghost s = bytes@.subrange(start as int, end as int);
    if end - start != word.len() {
        return false;
    }
    let mut i: usize = 0;
    while i < word.len()
        invariant
            start <= end <= bytes@.len(),
            end - start == word@.len(),
            i <= word@.len(),
            s == bytes@.subrange(start as int, end as int),
            forall|k: int| 0 <= k < i ==> lower(#[trigger] s[k]) == word@[k],
        decreases word@.len() - i,
    {
        let c = bytes[start + i];
        let folded: u8 = if 65 <= c && c <= 90 {
            c + 32
        } else {
            c
        };
        if folded != word[i] {
            assert(lower(s[i as int]) != word@[i as int]);
            return false;
        }
        i = i + 1;
    }
    true
}

/// Skips the decimal digits from `from` on, and gives the index after them.
fn skip_digits(bytes: &[u8], from: usize, end: usize, Ghost(base): Ghost<int>) -> (r: usize)
    requires
        0 <= base <= from <= end <= bytes@.len(),
    ensures
        from <= r <= end,
        r - base == digits_end(bytes@.subrange(base, end as int), from - base),
{
    let ghost s = bytes@.subrange(base, end as int);
    let mut i: usize = from;
    while i < end && 48 <= bytes[i] && bytes[i] <= 57
        invariant
            0 <= base <= from <= i <= end <= bytes@.len(),
            s == bytes@.subrange(base, end as int),
            digits_end(s, from - base) == digits_end(s, i - base),
        decreases end - i,
    {
        i = i + 1;
    }
    i
}

/// Checks `bytes[from..end]` against the grammar of an unsigned decimal
/// number.
fn number_text(bytes: &[u8], from: usize, end: usize) -> (r: bool)
    requires
        from <= end <= bytes@.len(),
    ensures
        r == is_number_text(bytes@.subrange(from as int, end as int)),
{
    let a = skip_digits(bytes, from, end, Ghost(from as int));
    let pointed = a < end && bytes[a] == 46;
    let b = if pointed {
        skip_digits(bytes, a + 1, end, Ghost(from as int))
    } else {
        a
    };
    let digits = if pointed {
        b - from - 1
    } else {
        b - from
    };
    if digits == 0 {
        return false;
    }
    if b == end {
        return true;
    }
    if bytes[b] != 101 && bytes[b] != 69 {
        return false;
    }
    let c = if b + 1 < end && (bytes[b + 1] == 43 || bytes[b + 1] == 45) {
        b + 2
    } else {
        b + 1
    };
    if c >= end {
        return false;
    }
    skip_digits(bytes, c, end, Ghost(from as int)) == end
}

/// Whether `bytes[from..end]` is `inf`, `infinity` or `nan` in any case.
fn special_text(bytes: &[u8], from: usize, end: usize) -> (r: bool)
    requires
        from <= end <= bytes@.len(),
    ensures
        r == {
            let t = bytes@.subrange(from as int, end as int);
            ||| is_word(t, seq![105u8, 110u8, 102u8])
            ||| is_word(t, seq![105u8, 110u8, 102u8, 105u8, 110u8, 105u8, 116u8, 121u8])
            ||| is_word(t, seq![110u8, 97u8, 110u8])
        },
{
    let inf: [u8; 3] = [105, 110, 102];
    let infinity: [u8; 8] = [105, 110, 102, 105, 110, 105, 116, 121];
    let nan: [u8; 3] = [110, 97, 110];
    assert(inf@ =~= seq![105u8, 110u8, 102u8]);
    assert(infinity@ =~= seq![105u8, 110u8, 102u8, 105u8, 110u8, 105u8, 116u8, 121u8]);
    assert(nan@ =~= seq![110u8, 97u8, 110u8]);
    let is_inf = word_matches(bytes, from, end, inf.as_slice());
    let is_infinity = word_matches(bytes, from, end, infinity.as_slice());
    let is_nan = word_matches(bytes, from, end, nan.as_slice());
    is_inf || is_infinity || is_nan
}

/// Checks `bytes[start..end]` against the grammar of a floating-point literal.
pub fn float_text(bytes: &[u8], start: usize, end: usize) -> (r: bool)
    requires
        start <= end <= bytes@.len(),
    ensures
        r == is_float_text(bytes@.subrange(start as int, end as int)),
{
    let ghost s = bytes@.subrange(start as int, end as int);
    let from: usize = if start < end && (bytes[start] == 43 || bytes[start] == 45) {
        start + 1
    } else {
        start
    };
    proof {
        if from == start {
            assert(bytes@.subrange(from as int, end as int) =~= s);
        } else {
            assert(bytes@.subrange(from as int, end as int) =~= s.drop_first());
        }
    }
    if special_text(bytes, from, end) {
        true
    } else {
        number_text(bytes, from, end)
    }
}

} // verus!
