//! Byte-level text utilities shared by the frame codec and the command
//! interpreter: ASCII decimal numerals, ASCII case folding, and UTF-8
//! validation.
use vstd::prelude::*;

verus! {

// ---------------------------------------------------------------------------
// ASCII decimal numerals
// ---------------------------------------------------------------------------

/// True for the ASCII digits `0`..=`9`.
pub open spec fn is_ascii_digit(b: u8) -> bool {
    48 <= b <= 57
}

/// True when every byte of `s` is an ASCII digit.
pub open spec fn all_digits(s: Seq<u8>) -> bool {
    forall|i: int| 0 <= i < s.len() ==> is_ascii_digit(#[trigger] s[i])
}

/// The integer denoted by a run of ASCII digits, most significant first.
pub open spec fn dec_value(s: Seq<u8>) -> int
    recommends
        all_digits(s),
    decreases s.len(),
{
    if s.len() == 0 {
        0
    } else {
        dec_value(s.drop_last()) * 10 + (s.last() - 48)
    }
}

/// The canonical decimal numeral of `n`: no sign, no redundant leading zero.
pub open spec fn dec_rep(n: nat) -> Seq<u8>
    decreases n,
{
    if n < 10 {
        seq![(48 + n) as u8]
    } else {
        dec_rep(n / 10) + seq![(48 + n % 10) as u8]
    }
}

/// The canonical numeral of a signed value: a `-` sign before the magnitude
/// when negative.
pub open spec fn dec_rep_signed(i: int) -> Seq<u8> {
    if i < 0 {
        seq![45u8] + dec_rep((-i) as nat)
    } else {
        dec_rep(i as nat)
    }
}

/// The value read from `s` by an unsigned decimal parse: an optional `+`
/// sign, then one or more digits, rejecting anything else and any value
/// above `u64::MAX`.
pub open spec fn spec_parse_u64(s: Seq<u8>) -> Option<u64> {
    let ds = if s.len() > 0 && s[0] == 43 {
        s.drop_first()
    } else {
        s
    };
    if ds.len() > 0 && all_digits(ds) && dec_value(ds) <= u64::MAX {
        Some(dec_value(ds) as u64)
    } else {
        None
    }
}

/// The value read from `s` by a signed decimal parse: an optional `+` or
/// `-` sign, then one or more digits, rejecting anything else and any value
/// outside `i64`'s range.
pub open spec fn spec_parse_i64(s: Seq<u8>) -> Option<i64> {
    if s.len() > 0 && s[0] == 45 {
        let ds = s.drop_first();
        if ds.len() > 0 && all_digits(ds) && -dec_value(ds) >= i64::MIN {
            Some((-dec_value(ds)) as i64)
        } else {
            None
        }
    } else {
        let ds = if s.len() > 0 && s[0] == 43 {
            s.drop_first()
        } else {
            s
        };
        if ds.len() > 0 && all_digits(ds) && dec_value(ds) <= i64::MAX {
            Some(dec_value(ds) as i64)
        } else {
            None
        }
    }
}

/// The value of a digit run never goes down when digits are appended.
proof fn lemma_dec_value_nonneg(s: Seq<u8>)
    requires
        all_digits(s),
    ensures
        dec_value(s) >= 0,
    decreases s.len(),
{
    if s.len() > 0 {
        assert(all_digits(s.drop_last()));
        lemma_dec_value_nonneg(s.drop_last());
    }
}

/// Extending a digit prefix by one digit multiplies its value by ten and
/// adds that digit.
proof fn lemma_dec_value_take_succ(s: Seq<u8>, j: int)
    requires
        0 <= j < s.len(),
    ensures
        dec_value(s.take(j + 1)) == dec_value(s.take(j)) * 10 + (s[j] - 48),
{
    assert(s.take(j + 1).drop_last() =~= s.take(j));
    assert(s.take(j + 1).last() == s[j]);
}

/// A digit run is worth at least as much as any of its prefixes.
proof fn lemma_dec_value_prefix_le(s: Seq<u8>, j: int)
    requires
        0 <= j <= s.len(),
        all_digits(s),
    ensures
        dec_value(s.take(j)) <= dec_value(s),
    decreases s.len() - j,
{
    if j == s.len() {
        assert(s.take(j) =~= s);
    } else {
        assert(all_digits(s.take(j))) by {
            assert(forall|i: int| 0 <= i < j ==> s.take(j)[i] == s[i]);
        }
        lemma_dec_value_nonneg(s.take(j));
        lemma_dec_value_take_succ(s, j);
        lemma_dec_value_prefix_le(s, j + 1);
    }
}

/// Parses `s[from..]` as one or more ASCII digits, with the exact success
/// and failure conditions of [`spec_parse_u64`] restricted to an unsigned
/// digit run.
fn parse_digits(s: &Vec<u8>, from: usize) -> (r: Option<u64>)
    requires
        from <= s@.len(),
    ensures
        ({
            let ds = s@.skip(from as int);
            match r {
                Some(v) => ds.len() > 0 && all_digits(ds) && dec_value(ds) == v,
                None => !(ds.len() > 0 && all_digits(ds) && dec_value(ds) <= u64::MAX),
            }
        }),
{
    let ghost ds = s@.skip(from as int);
    let n = s.len();
    if from >= n {
        return None;
    }
    let mut acc: u64 = 0;
    let mut i: usize = from;
    while i < n
        invariant
            from <= i <= n,
            n == s@.len(),
            ds == s@.skip(from as int),
            all_digits(ds.take(i - from)),
            acc == dec_value(ds.take(i - from)),
        decreases n - i,
    {
        let b = s[i];
        assert(ds[i - from] == s@[i as int]);
        if b < 48 || b > 57 {
            assert(!all_digits(ds));
            return None;
        }
        let d: u64 = (b - 48) as u64;
        proof {
            lemma_dec_value_take_succ(ds, i - from);
        }
        let step = acc.checked_mul(10);
        if step.is_none() {
            proof {
                if all_digits(ds) {
                    lemma_dec_value_prefix_le(ds, i - from + 1);
                }
            }
            return None;
        }
        let wide = step.unwrap();
        let next = wide.checked_add(d);
        if next.is_none() {
            proof {
                if all_digits(ds) {
                    lemma_dec_value_prefix_le(ds, i - from + 1);
                }
            }
            return None;
        }
        acc = next.unwrap();
        i = i + 1;
    }
    assert(ds.take(n - from) =~= ds);
    Some(acc)
}

/// Reads an unsigned decimal numeral, mirroring a strict string-to-`u64`
/// conversion: an optional `+` sign, then only digits, within range.
pub fn parse_u64(s: &Vec<u8>) -> (r: Option<u64>)
    ensures
        r == spec_parse_u64(s@),
{
    if s.len() > 0 && s[0] == 43 {
        let r = parse_digits(s, 1);
        proof {
            assert(s@.skip(1) =~= s@.drop_first());
        }
        r
    } else {
        let r = parse_digits(s, 0);
        proof {
            assert(s@.skip(0) =~= s@);
        }
        r
    }
}

/// Reads a signed decimal numeral, mirroring a strict string-to-`i64`
/// conversion: an optional `+` or `-` sign, then only digits, within range.
pub fn parse_i64(s: &Vec<u8>) -> (r: Option<i64>)
    ensures
        r == spec_parse_i64(s@),
{
    if s.len() > 0 && s[0] == 45 {
        let ghost ds = s@.drop_first();
        let mag = parse_digits(s, 1);
        proof {
            assert(s@.skip(1) =~= ds);
        }
        match mag {
            None => None,
            Some(v) => {
                // i64::MIN's magnitude is one past i64::MAX.
                if v <= 9223372036854775807u64 {
                    Some(-(v as i64))
                } else if v == 9223372036854775808u64 {
                    Some(i64::MIN)
                } else {
                    None
                }
            },
        }
    } else if s.len() > 0 && s[0] == 43 {
        let ghost ds = s@.drop_first();
        let mag = parse_digits(s, 1);
        proof {
            assert(s@.skip(1) =~= ds);
        }
        match mag {
            None => None,
            Some(v) => if v <= 9223372036854775807u64 {
                Some(v as i64)
            } else {
                None
            },
        }
    } else {
        let mag = parse_digits(s, 0);
        proof {
            assert(s@.skip(0) =~= s@);
        }
        match mag {
            None => None,
            Some(v) => if v <= 9223372036854775807u64 {
                Some(v as i64)
            } else {
                None
            },
        }
    }
}

/// The canonical numeral consists of digits, is never empty, and denotes
/// exactly `n`.
pub proof fn lemma_dec_rep_digits(n: nat)
    ensures
        all_digits(dec_rep(n)),
        dec_rep(n).len() >= 1,
        dec_value(dec_rep(n)) == n,
    decreases n,
{
    if n < 10 {
        let s = seq![(48 + n) as u8];
        assert(s.drop_last() =~= Seq::<u8>::empty());
        assert(dec_value(s.drop_last()) == 0);
        assert(s.last() == (48 + n) as u8);
        assert(dec_value(s) == n);
    } else {
        lemma_dec_rep_digits(n / 10);
        let s = dec_rep(n / 10) + seq![(48 + n % 10) as u8];
        assert(s.drop_last() =~= dec_rep(n / 10));
        assert(s.last() == (48 + n % 10) as u8);
        vstd::arithmetic::div_mod::lemma_fundamental_div_mod(n as int, 10);
        assert(all_digits(s)) by {
            assert(forall|i: int| 0 <= i < s.len() - 1 ==> s[i] == dec_rep(n / 10)[i]);
        }
    }
}

/// A canonical signed numeral parses back to the value it denotes.
pub proof fn lemma_parse_i64_dec_rep(v: i64)
    ensures
        spec_parse_i64(dec_rep_signed(v as int)) == Some(v),
{
    if v < 0 {
        lemma_dec_rep_digits((-(v as int)) as nat);
        let s = dec_rep_signed(v as int);
        let m = dec_rep((-(v as int)) as nat);
        assert(s[0] == 45);
        assert(s.drop_first() =~= m);
        assert(is_ascii_digit(m[0]));
    } else {
        lemma_dec_rep_digits(v as nat);
        let s = dec_rep_signed(v as int);
        assert(is_ascii_digit(s[0]));
    }
}

/// Writes the canonical decimal numeral of `n`.
pub fn fmt_u64(n: u64) -> (r: Vec<u8>)
    ensures
        r@ == dec_rep(n as nat),
{
    let mut tmp: Vec<u8> = Vec::new();
    let mut m: u64 = n;
    while m >= 10
        invariant
            dec_rep(n as nat) == dec_rep(m as nat) + tmp@.reverse(),
        decreases m,
    {
        let d: u8 = (m % 10) as u8 + 48;
        proof {
            assert(dec_rep(m as nat) == dec_rep((m as nat) / 10) + seq![d]);
            assert(tmp@.push(d).reverse() =~= seq![d] + tmp@.reverse());
            assert(dec_rep((m as nat) / 10) + seq![d] + tmp@.reverse() =~= dec_rep(
                (m as nat) / 10,
            ) + (seq![d] + tmp@.reverse()));
        }
        tmp.push(d);
        m = m / 10;
    }
    let d: u8 = m as u8 + 48;
    proof {
        assert(dec_rep(m as nat) == seq![d]);
        assert(tmp@.push(d).reverse() =~= seq![d] + tmp@.reverse());
    }
    tmp.push(d);
    let ghost goal = dec_rep(n as nat);
    proof {
        assert(goal == tmp@.reverse());
    }
    let k = tmp.len();
    let mut r: Vec<u8> = Vec::new();
    let mut j: usize = 0;
    while j < k
        invariant
            j <= k,
            k == tmp@.len(),
            goal == tmp@.reverse(),
            r@ == goal.take(j as int),
        decreases k - j,
    {
        let d2: u8 = tmp[k - 1 - j];
        proof {
            assert(goal[j as int] == tmp@[k - 1 - j]);
            assert(goal.take(j + 1) =~= goal.take(j as int).push(d2));
        }
        r.push(d2);
        j = j + 1;
    }
    proof {
        assert(goal.take(k as int) =~= goal);
    }
    r
}

/// Writes the canonical decimal numeral of `i`, with a leading `-` when
/// negative.
pub fn fmt_i64(i: i64) -> (r: Vec<u8>)
    ensures
        r@ == dec_rep_signed(i as int),
{
    if i >= 0 {
        fmt_u64(i as u64)
    } else {
        // The magnitude of `i64::MIN` does not fit in `i64`, so negate in
        // two steps.
        let mag: u64 = ((-(i + 1)) as u64) + 1;
        let mut r: Vec<u8> = Vec::new();
        r.push(45);
        let digits = fmt_u64(mag);
        proof {
            assert(mag == -(i as int));
        }
        let mut j: usize = 0;
        let k = digits.len();
        while j < k
            invariant
                j <= k,
                k == digits@.len(),
                r@ == seq![45u8] + digits@.take(j as int),
            decreases k - j,
        {
            let d: u8 = digits[j];
            proof {
                assert((seq![45u8] + digits@.take(j as int)).push(d) =~= seq![45u8]
                    + digits@.take(j + 1));
            }
            r.push(d);
            j = j + 1;
        }
        proof {
            assert(digits@.take(k as int) =~= digits@);
        }
        r
    }
}

// ---------------------------------------------------------------------------
// ASCII case folding
// ---------------------------------------------------------------------------

/// Folds one ASCII upper-case letter to lower case; leaves every other
/// byte unchanged.
pub open spec fn lower_byte(b: u8) -> u8 {
    if 65 <= b <= 90 {
        (b + 32) as u8
    } else {
        b
    }
}

/// Folds every ASCII upper-case letter in `s` to lower case.
pub open spec fn lower_bytes(s: Seq<u8>) -> Seq<u8> {
    s.map_values(|b: u8| lower_byte(b))
}

/// True when `s` equals `t` up to ASCII case.
pub open spec fn eq_ignore_case(s: Seq<u8>, t: Seq<u8>) -> bool {
    lower_bytes(s) == lower_bytes(t)
}

/// Compares two byte strings up to ASCII case.
pub fn bytes_eq_ignore_case(a: &Vec<u8>, b: &Vec<u8>) -> (r: bool)
    ensures
        r == eq_ignore_case(a@, b@),
{
    if a.len() != b.len() {
        proof {
            assert(lower_bytes(a@).len() != lower_bytes(b@).len());
        }
        return false;
    }
    let n = a.len();
    let mut i: usize = 0;
    while i < n
        invariant
            i <= n,
            n == a@.len(),
            n == b@.len(),
            forall|j: int| 0 <= j < i ==> lower_bytes(a@)[j] == lower_bytes(b@)[j],
        decreases n - i,
    {
        let x = a[i];
        let y = b[i];
        let lx: u8 = if 65 <= x && x <= 90 {
            x + 32
        } else {
            x
        };
        let ly: u8 = if 65 <= y && y <= 90 {
            y + 32
        } else {
            y
        };
        if lx != ly {
            proof {
                assert(lower_bytes(a@)[i as int] != lower_bytes(b@)[i as int]);
            }
            return false;
        }
        proof {
            assert(lower_bytes(a@)[i as int] == lower_bytes(b@)[i as int]);
        }
        i = i + 1;
    }
    proof {
        assert(lower_bytes(a@) =~= lower_bytes(b@));
    }
    true
}

/// Compares two byte strings for equality.
pub fn bytes_eq(a: &Vec<u8>, b: &Vec<u8>) -> (r: bool)
    ensures
        r == (a@ == b@),
{
    if a.len() != b.len() {
        return false;
    }
    let n = a.len();
    let mut i: usize = 0;
    while i < n
        invariant
            i <= n,
            n == a@.len(),
            n == b@.len(),
            forall|j: int| 0 <= j < i ==> a@[j] == b@[j],
        decreases n - i,
    {
        if a[i] != b[i] {
            return false;
        }
        i = i + 1;
    }
    proof {
        assert(a@ =~= b@);
    }
    true
}

// ---------------------------------------------------------------------------
// UTF-8 validation
// ---------------------------------------------------------------------------

/// A run of plain ASCII bytes is valid UTF-8.
pub proof fn lemma_ascii_valid_utf8(s: Seq<u8>)
    requires
        forall|i: int| 0 <= i < s.len() ==> #[trigger] s[i] < 0x80,
    ensures
        vstd::utf8::valid_utf8(s),
    decreases s.len(),
{
    if s.len() > 0 {
        let b0 = s[0];
        assert(b0 & 0x7f == b0) by (bit_vector)
            requires
                b0 < 0x80,
        ;
        assert(vstd::utf8::valid_first_scalar(s));
        assert(vstd::utf8::length_of_first_scalar(s) == 1);
        assert(vstd::utf8::pop_first_scalar(s) =~= s.drop_first());
        lemma_ascii_valid_utf8(s.drop_first());
    }
}

/// Decides [`vstd::utf8::valid_utf8`] for a byte string: scans scalar by
/// scalar, rejecting bad leading bytes, missing or malformed continuation
/// bytes, overlong encodings, surrogates, and out-of-range codepoints.
pub fn is_valid_utf8(b: &Vec<u8>) -> (r: bool)
    ensures
        r == vstd::utf8::valid_utf8(b@),
{
    let n = b.len();
    let mut i: usize = 0;
    proof {
        assert(b@.skip(0) =~= b@);
    }
    while i < n
        invariant
            i <= n,
            n == b@.len(),
            vstd::utf8::valid_utf8(b@) == vstd::utf8::valid_utf8(b@.skip(i as int)),
        decreases n - i,
    {
        let ghost suf = b@.skip(i as int);
        proof {
            assert(forall|k: int| 0 <= k < suf.len() ==> suf[k] == b@[i + k]);
        }
        let b0 = b[i];
        if b0 < 0x80 {
            proof {
                assert(b0 & 0x7f == b0) by (bit_vector)
                    requires
                        b0 < 0x80,
                ;
                assert(vstd::utf8::valid_first_scalar(suf));
                assert(vstd::utf8::length_of_first_scalar(suf) == 1);
                assert(vstd::utf8::pop_first_scalar(suf) =~= b@.skip(i + 1));
            }
            i = i + 1;
        } else if b0 < 0xc0 {
            proof {
                assert(!vstd::utf8::valid_leading_and_continuation_bytes_first_codepoint(suf));
            }
            return false;
        } else if b0 < 0xe0 {
            if n - i < 2 {
                proof {
                    assert(suf.len() < 2);
                    assert(!vstd::utf8::valid_leading_and_continuation_bytes_first_codepoint(suf));
                }
                return false;
            }
            let b1 = b[i + 1];
            if !(0x80 <= b1 && b1 <= 0xbf) {
                proof {
                    assert(!vstd::utf8::valid_leading_and_continuation_bytes_first_codepoint(suf));
                }
                return false;
            }
            let cp: u32 = (((b0 & 0x1f) as u32) << 6) | ((b1 & 0x3f) as u32);
            proof {
                assert(vstd::utf8::decode_first_codepoint(suf) == cp);
                assert(cp <= 0x7ff) by (bit_vector)
                    requires
                        cp == (((b0 & 0x1f) as u32) << 6) | ((b1 & 0x3f) as u32),
                ;
            }
            if cp < 0x80 {
                proof {
                    assert(!vstd::utf8::not_overlong_encoding(cp, 2));
                }
                return false;
            }
            proof {
                assert(vstd::utf8::valid_first_scalar(suf));
                assert(vstd::utf8::length_of_first_scalar(suf) == 2);
                assert(vstd::utf8::pop_first_scalar(suf) =~= b@.skip(i + 2));
            }
            i = i + 2;
        } else if b0 < 0xf0 {
            if n - i < 3 {
                proof {
                    assert(suf.len() < 3);
                    assert(!vstd::utf8::valid_leading_and_continuation_bytes_first_codepoint(suf));
                }
                return false;
            }
            let b1 = b[i + 1];
            let b2 = b[i + 2];
            if !(0x80 <= b1 && b1 <= 0xbf) || !(0x80 <= b2 && b2 <= 0xbf) {
                proof {
                    assert(!vstd::utf8::valid_leading_and_continuation_bytes_first_codepoint(suf));
                }
                return false;
            }
            let cp: u32 = (((b0 & 0x0f) as u32) << 12) | (((b1 & 0x3f) as u32) << 6) | ((b2
                & 0x3f) as u32);
            proof {
                assert(vstd::utf8::decode_first_codepoint(suf) == cp);
            }
            if cp < 0x800 {
                proof {
                    assert(!vstd::utf8::not_overlong_encoding(cp, 3));
                }
                return false;
            }
            if 0xd800 <= cp && cp <= 0xdfff {
                proof {
                    assert(!vstd::utf8::not_surrogate(cp));
                }
                return false;
            }
            proof {
                assert(vstd::utf8::valid_first_scalar(suf));
                assert(vstd::utf8::length_of_first_scalar(suf) == 3);
                assert(vstd::utf8::pop_first_scalar(suf) =~= b@.skip(i + 3));
            }
            i = i + 3;
        } else if b0 < 0xf8 {
            if n - i < 4 {
                proof {
                    assert(suf.len() < 4);
                    assert(!vstd::utf8::valid_leading_and_continuation_bytes_first_codepoint(suf));
                }
                return false;
            }
            let b1 = b[i + 1];
            let b2 = b[i + 2];
            let b3 = b[i + 3];
            if !(0x80 <= b1 && b1 <= 0xbf) || !(0x80 <= b2 && b2 <= 0xbf) || !(0x80 <= b3 && b3
                <= 0xbf) {
                proof {
                    assert(!vstd::utf8::valid_leading_and_continuation_bytes_first_codepoint(suf));
                }
                return false;
            }
            let cp: u32 = (((b0 & 0x07) as u32) << 18) | (((b1 & 0x3f) as u32) << 12) | (((b2
                & 0x3f) as u32) << 6) | ((b3 & 0x3f) as u32);
            proof {
                assert(vstd::utf8::decode_first_codepoint(suf) == cp);
            }
            if cp < 0x10000 || cp > 0x10ffff {
                proof {
                    assert(!vstd::utf8::not_overlong_encoding(cp, 4));
                }
                return false;
            }
            proof {
                assert(vstd::utf8::valid_first_scalar(suf));
                assert(vstd::utf8::length_of_first_scalar(suf) == 4);
                assert(vstd::utf8::pop_first_scalar(suf) =~= b@.skip(i + 4));
            }
            i = i + 4;
        } else {
            proof {
                assert(!vstd::utf8::valid_leading_and_continuation_bytes_first_codepoint(suf));
            }
            return false;
        }
    }
    proof {
        assert(b@.skip(n as int).len() == 0);
    }
    true
}

} // verus!
