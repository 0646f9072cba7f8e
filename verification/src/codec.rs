//! The codec layer: translates procedure arguments and results to and from
//! HTTP body text.
//!
//! The wire format is a form-style encoding: an argument payload is
//! `key=value` pairs joined by `&`, in the order fixed by the procedure's
//! descriptor; a value is a canonical signed decimal integer.  A result
//! envelope is `ok=` followed by the encoded result, or `err=` followed by a
//! domain-error message, so a client can always tell "the procedure ran and
//! reported an error" from a transport-level failure.
//!
//! Decoding accepts exactly the image of encoding: `decode` returns `Some`
//! precisely on bodies that `encode` produces, which is proved below as a
//! round-trip in both directions.

use vstd::prelude::*;

verus! {

// ---------------------------------------------------------------------------
// Decimal digits
// ---------------------------------------------------------------------------

/// Is `c` a decimal digit?
pub open spec fn is_digit(c: char) -> bool {
    c == '0' || c == '1' || c == '2' || c == '3' || c == '4' || c == '5' || c == '6' || c == '7'
        || c == '8' || c == '9'
}

/// Numeric value of a digit character.
pub open spec fn digit_val(c: char) -> int {
    if c == '0' {
        0
    } else if c == '1' {
        1
    } else if c == '2' {
        2
    } else if c == '3' {
        3
    } else if c == '4' {
        4
    } else if c == '5' {
        5
    } else if c == '6' {
        6
    } else if c == '7' {
        7
    } else if c == '8' {
        8
    } else {
        9
    }
}

/// Digit character for a value below ten.
pub open spec fn digit_char(d: int) -> char {
    if d == 0 {
        '0'
    } else if d == 1 {
        '1'
    } else if d == 2 {
        '2'
    } else if d == 3 {
        '3'
    } else if d == 4 {
        '4'
    } else if d == 5 {
        '5'
    } else if d == 6 {
        '6'
    } else if d == 7 {
        '7'
    } else if d == 8 {
        '8'
    } else {
        '9'
    }
}

proof fn lemma_digit_char_val(d: int)
    requires
        0 <= d < 10,
    ensures
        is_digit(digit_char(d)),
        digit_val(digit_char(d)) == d,
{
}

proof fn lemma_digit_val_char(c: char)
    requires
        is_digit(c),
    ensures
        0 <= digit_val(c) < 10,
        digit_char(digit_val(c)) == c,
{
}

// ---------------------------------------------------------------------------
// Decimal numerals
// ---------------------------------------------------------------------------

/// The canonical decimal numeral of a natural number, most significant digit
/// first.
pub open spec fn digits_of(n: nat) -> Seq<char>
    decreases n,
{
    if n < 10 {
        seq![digit_char(n as int)]
    } else {
        digits_of(n / 10).push(digit_char((n % 10) as int))
    }
}

/// The numeric value of a digit string.
pub open spec fn val_of(s: Seq<char>) -> int
    decreases s.len(),
{
    if s.len() == 0 {
        0
    } else {
        val_of(s.drop_last()) * 10 + digit_val(s.last())
    }
}

pub open spec fn all_digits(s: Seq<char>) -> bool {
    forall|i: int| 0 <= i < s.len() ==> is_digit(#[trigger] s[i])
}

/// A canonical (unsigned) numeral: nonempty, all digits, no leading zero.
pub open spec fn canon_digits(s: Seq<char>) -> bool {
    s.len() >= 1 && all_digits(s) && (s.len() == 1 || s[0] != '0')
}

pub open spec fn pow10(k: nat) -> int
    decreases k,
{
    if k == 0 {
        1
    } else {
        10 * pow10((k - 1) as nat)
    }
}

proof fn lemma_val_of_unit(s: Seq<char>)
    requires
        s.len() == 1,
    ensures
        val_of(s) == digit_val(s[0]),
{
    reveal_with_fuel(val_of, 2);
    assert(s.drop_last().len() == 0);
    assert(s.last() == s[0]);
}

proof fn lemma_digits_of_canon(n: nat)
    ensures
        canon_digits(digits_of(n)),
        digits_of(n).len() >= 1,
        n == 0 ==> digits_of(n) == seq!['0'],
        n > 0 ==> digits_of(n)[0] != '0',
    decreases n,
{
    if n < 10 {
        lemma_digit_char_val(n as int);
        assert(digits_of(n) == seq![digit_char(n as int)]);
    } else {
        lemma_digits_of_canon(n / 10);
        lemma_digit_char_val((n % 10) as int);
        let s = digits_of(n);
        let p = digits_of(n / 10);
        assert(s == p.push(digit_char((n % 10) as int)));
        assert(s[0] == p[0]);
        assert forall|i: int| 0 <= i < s.len() implies is_digit(s[i]) by {
            if i < p.len() {
                assert(s[i] == p[i]);
            }
        }
    }
}

proof fn lemma_val_of_digits(n: nat)
    ensures
        val_of(digits_of(n)) == n,
    decreases n,
{
    if n < 10 {
        lemma_digit_char_val(n as int);
        let s = digits_of(n);
        lemma_val_of_unit(s);
        assert(val_of(s) == digit_val(digit_char(n as int)));
    } else {
        lemma_val_of_digits(n / 10);
        lemma_digit_char_val((n % 10) as int);
        let s = digits_of(n);
        let p = digits_of(n / 10);
        assert(s == p.push(digit_char((n % 10) as int)));
        assert(s.drop_last() =~= p);
        assert(s.last() == digit_char((n % 10) as int));
        assert(val_of(s) == val_of(p) * 10 + (n % 10));
        assert((n / 10) * 10 + (n % 10) == n) by (nonlinear_arith);
    }
}

proof fn lemma_pow10_pos(k: nat)
    ensures
        pow10(k) >= 1,
    decreases k,
{
    if k > 0 {
        lemma_pow10_pos((k - 1) as nat);
    }
}

proof fn lemma_val_of_pos(s: Seq<char>)
    requires
        s.len() >= 1,
        all_digits(s),
        s[0] != '0',
    ensures
        val_of(s) >= pow10((s.len() - 1) as nat),
        val_of(s) >= 1,
    decreases s.len(),
{
    if s.len() == 1 {
        lemma_digit_val_char(s[0]);
        lemma_val_of_unit(s);
        assert(digit_val(s[0]) >= 1);
    } else {
        let p = s.drop_last();
        assert(p[0] == s[0]);
        assert(all_digits(p)) by {
            assert(forall|i: int| 0 <= i < p.len() ==> p[i] == s[i]);
        }
        lemma_val_of_pos(p);
        lemma_pow10_pos((p.len() - 1) as nat);
        lemma_digit_val_char(s.last());
        assert(val_of(s) == val_of(p) * 10 + digit_val(s.last()));
        assert(val_of(p) * 10 >= pow10((p.len() - 1) as nat) * 10) by (nonlinear_arith)
            requires
                val_of(p) >= pow10((p.len() - 1) as nat),
                pow10((p.len() - 1) as nat) >= 1,
        ;
        assert(pow10((s.len() - 1) as nat) == 10 * pow10((p.len() - 1) as nat));
    }
}

proof fn lemma_val_of_nonneg(s: Seq<char>)
    requires
        all_digits(s),
    ensures
        0 <= val_of(s),
        val_of(s) < pow10(s.len()),
    decreases s.len(),
{
    if s.len() == 0 {
    } else {
        let p = s.drop_last();
        assert(all_digits(p)) by {
            assert(forall|i: int| 0 <= i < p.len() ==> p[i] == s[i]);
        }
        lemma_val_of_nonneg(p);
        lemma_digit_val_char(s.last());
        assert(val_of(p) * 10 + digit_val(s.last()) < pow10(p.len()) * 10) by (nonlinear_arith)
            requires
                val_of(p) < pow10(p.len()),
                0 <= val_of(p),
                digit_val(s.last()) < 10,
        ;
        assert(val_of(p) * 10 >= 0) by (nonlinear_arith)
            requires
                val_of(p) >= 0,
        ;
    }
}

proof fn lemma_pow10_mono(a: nat, b: nat)
    requires
        a <= b,
    ensures
        pow10(a) <= pow10(b),
    decreases b,
{
    lemma_pow10_pos(a);
    if a < b {
        lemma_pow10_mono(a, (b - 1) as nat);
        lemma_pow10_pos((b - 1) as nat);
    }
}

/// The numeral of the value of a canonical digit string is that string again.
proof fn lemma_digits_of_val(s: Seq<char>)
    requires
        canon_digits(s),
    ensures
        val_of(s) >= 0,
        digits_of(val_of(s) as nat) == s,
    decreases s.len(),
{
    assert(all_digits(s));
    lemma_val_of_nonneg(s);
    if s.len() == 1 {
        lemma_digit_val_char(s[0]);
        lemma_val_of_unit(s);
        assert(val_of(s) == digit_val(s[0]));
        assert(digits_of(val_of(s) as nat) == seq![digit_char(digit_val(s[0]))]);
        assert(digits_of(val_of(s) as nat) =~= s);
    } else {
        let p = s.drop_last();
        assert(s[0] != '0');
        assert(p[0] == s[0]);
        assert(all_digits(p)) by {
            assert(forall|i: int| 0 <= i < p.len() ==> p[i] == s[i]);
        }
        assert(canon_digits(p));
        lemma_digits_of_val(p);
        lemma_val_of_pos(p);
        lemma_val_of_nonneg(p);
        lemma_digit_val_char(s.last());
        let n = val_of(s);
        let d = digit_val(s.last());
        assert(n == val_of(p) * 10 + d);
        assert(val_of(p) >= 1);
        assert(n >= 10) by (nonlinear_arith)
            requires
                n == val_of(p) * 10 + d,
                val_of(p) >= 1,
                d >= 0,
        ;
        assert(n / 10 == val_of(p) && n % 10 == d) by (nonlinear_arith)
            requires
                n == val_of(p) * 10 + d,
                0 <= d < 10,
                val_of(p) >= 0,
        ;
        assert(digits_of(n as nat) == digits_of((n / 10) as nat).push(digit_char((n as nat % 10) as int)));
        assert((n as nat) / 10 == (n / 10) as nat);
        assert(digits_of((n / 10) as nat) == p);
        assert(digit_char((n % 10) as int) == s.last());
        assert(digits_of(n as nat) =~= s);
    }
}

// ---------------------------------------------------------------------------
// Signed canonical integers
// ---------------------------------------------------------------------------

/// The canonical text of a signed integer: a minus sign for negatives, then
/// the decimal numeral of the magnitude.
pub open spec fn spec_int_str(v: int) -> Seq<char> {
    if v < 0 {
        seq!['-'] + digits_of((-v) as nat)
    } else {
        digits_of(v as nat)
    }
}

/// Parse a canonical signed decimal integer bounded to the 64-bit range.
/// Returns `Some(v)` exactly when `s == spec_int_str(v)` for an in-range `v`.
pub open spec fn spec_parse_int(s: Seq<char>) -> Option<int> {
    if s.len() >= 1 && s[0] == '-' {
        let t = s.subrange(1, s.len() as int);
        if canon_digits(t) && val_of(t) > 0 && -val_of(t) >= i64::MIN {
            Some(-val_of(t))
        } else {
            None
        }
    } else if canon_digits(s) && val_of(s) <= i64::MAX {
        Some(val_of(s))
    } else {
        None
    }
}

/// Encoding then parsing gives the value back: the codec is lossless on
/// every representable integer.
pub proof fn lemma_int_round_trip(v: int)
    requires
        i64::MIN <= v <= i64::MAX,
    ensures
        spec_parse_int(spec_int_str(v)) == Some(v),
{
    if v < 0 {
        let m = (-v) as nat;
        let s = spec_int_str(v);
        lemma_digits_of_canon(m);
        lemma_val_of_digits(m);
        let t = s.subrange(1, s.len() as int);
        assert(t =~= digits_of(m));
        assert(s[0] == '-');
        assert(val_of(t) == m);
    } else {
        let s = spec_int_str(v);
        lemma_digits_of_canon(v as nat);
        lemma_val_of_digits(v as nat);
        assert(s == digits_of(v as nat));
        if v == 0 {
            assert(s == seq!['0']);
            assert(s[0] == '0');
        } else {
            assert(s[0] != '0');
        }
        assert(!(s.len() >= 1 && s[0] == '-'));
        assert(canon_digits(s));
    }
}

/// A successful parse pins the text down: the input was the canonical
/// encoding of the returned value, and the value is in range.
pub proof fn lemma_parse_int_sound(s: Seq<char>, v: int)
    requires
        spec_parse_int(s) == Some(v),
    ensures
        i64::MIN <= v <= i64::MAX,
        s == spec_int_str(v),
{
    if s.len() >= 1 && s[0] == '-' {
        let t = s.subrange(1, s.len() as int);
        lemma_digits_of_val(t);
        assert(digits_of(val_of(t) as nat) == t);
        assert(v == -val_of(t));
        assert(spec_int_str(v) == seq!['-'] + digits_of((-v) as nat));
        assert(s =~= seq!['-'] + t);
    } else {
        lemma_digits_of_val(s);
        assert(v == val_of(s));
        lemma_val_of_nonneg(s);
        assert(spec_int_str(v) == digits_of(v as nat));
    }
}

/// Canonical encodings are injective: equal texts mean equal values.
pub proof fn lemma_int_str_injective(a: int, b: int)
    requires
        i64::MIN <= a <= i64::MAX,
        i64::MIN <= b <= i64::MAX,
        spec_int_str(a) == spec_int_str(b),
    ensures
        a == b,
{
    lemma_int_round_trip(a);
    lemma_int_round_trip(b);
}

// ---------------------------------------------------------------------------
// Form payloads: `key=value` pairs joined by `&`
// ---------------------------------------------------------------------------

/// Index of the first occurrence of `c` in `s`, or `s.len()` when `c` is
/// absent.
pub open spec fn first_occ(s: Seq<char>, c: char) -> int
    decreases s.len(),
{
    if s.len() == 0 {
        0
    } else if s[0] == c {
        0
    } else {
        1 + first_occ(s.subrange(1, s.len() as int), c)
    }
}

pub proof fn lemma_first_occ(s: Seq<char>, c: char)
    ensures
        0 <= first_occ(s, c) <= s.len(),
        forall|i: int| 0 <= i < first_occ(s, c) ==> s[i] != c,
        first_occ(s, c) < s.len() ==> s[first_occ(s, c)] == c,
    decreases s.len(),
{
    if s.len() == 0 {
    } else if s[0] == c {
    } else {
        let t = s.subrange(1, s.len() as int);
        lemma_first_occ(t, c);
        assert forall|i: int| 0 <= i < first_occ(s, c) implies s[i] != c by {
            if i >= 1 {
                assert(s[i] == t[i - 1]);
            }
        }
        if first_occ(s, c) < s.len() {
            assert(s[first_occ(s, c)] == t[first_occ(t, c)]);
        }
    }
}

/// Where a separator-free prefix is followed by the separator, the first
/// occurrence is exactly at the end of that prefix.
proof fn lemma_first_occ_at(s: Seq<char>, c: char, p: int)
    requires
        0 <= p <= s.len(),
        forall|i: int| 0 <= i < p ==> s[i] != c,
        p < s.len() ==> s[p] == c,
        p == s.len() || s[p] == c,
    ensures
        first_occ(s, c) == p,
{
    lemma_first_occ(s, c);
    let f = first_occ(s, c);
    if f < p {
        assert(s[f] == c);
    }
    if f > p {
        assert(p < s.len());
    }
}

/// A well-formed field name: nonempty and free of the two separators.
pub open spec fn wf_key(k: Seq<char>) -> bool {
    k.len() >= 1 && forall|i: int|
        0 <= i < k.len() ==> #[trigger] k[i] != '&' && k[i] != '='
}

/// One encoded `key=value` pair.
pub open spec fn spec_pair(k: Seq<char>, v: int) -> Seq<char> {
    k + seq!['='] + spec_int_str(v)
}

/// The encoded form body for a schema `keys` and values `vals`, pairs joined
/// by `&` in schema order.
pub open spec fn spec_encode_form(keys: Seq<Seq<char>>, vals: Seq<int>) -> Seq<char>
    decreases keys.len(),
{
    if keys.len() == 0 {
        Seq::empty()
    } else if keys.len() == 1 {
        spec_pair(keys[0], vals[0])
    } else {
        spec_pair(keys[0], vals[0]) + seq!['&'] + spec_encode_form(
            keys.subrange(1, keys.len() as int),
            vals.subrange(1, vals.len() as int),
        )
    }
}

/// Decode a form body against a schema: each pair must carry the expected
/// key, in order, with a canonical in-range integer value, and nothing may
/// trail the last pair.
pub open spec fn spec_decode_form(body: Seq<char>, keys: Seq<Seq<char>>) -> Option<Seq<int>>
    decreases keys.len(),
{
    if keys.len() == 0 {
        if body.len() == 0 {
            Some(Seq::empty())
        } else {
            None
        }
    } else {
        let cut = first_occ(body, '&');
        let seg = body.subrange(0, cut);
        let k = keys[0];
        if k.len() + 1 <= seg.len() && seg.subrange(0, k.len() as int) == k && seg[k.len() as int]
            == '=' {
            match spec_parse_int(seg.subrange(k.len() as int + 1, seg.len() as int)) {
                Some(v) => if keys.len() == 1 {
                    if cut == body.len() {
                        Some(seq![v])
                    } else {
                        None
                    }
                } else {
                    if cut < body.len() {
                        match spec_decode_form(
                            body.subrange(cut + 1, body.len() as int),
                            keys.subrange(1, keys.len() as int),
                        ) {
                            Some(rest) => Some(seq![v] + rest),
                            None => None,
                        }
                    } else {
                        None
                    }
                },
                None => None,
            }
        } else {
            None
        }
    }
}

/// Every character of a canonical integer is a digit or the minus sign; in
/// particular the two form separators never occur in one.
proof fn lemma_int_str_chars(v: int)
    ensures
        forall|i: int|
            0 <= i < spec_int_str(v).len() ==> #[trigger] spec_int_str(v)[i] != '&'
                && spec_int_str(v)[i] != '=',
{
    let s = spec_int_str(v);
    if v < 0 {
        let d = digits_of((-v) as nat);
        lemma_digits_of_canon((-v) as nat);
        assert forall|i: int| 0 <= i < s.len() implies s[i] != '&' && s[i] != '=' by {
            if i >= 1 {
                assert(s[i] == d[i - 1]);
                assert(is_digit(d[i - 1]));
            } else {
                assert(s[i] == '-');
            }
        }
    } else {
        lemma_digits_of_canon(v as nat);
        assert forall|i: int| 0 <= i < s.len() implies s[i] != '&' && s[i] != '=' by {
            assert(is_digit(s[i]));
        }
    }
}

/// Encoding a payload and decoding it against the same schema gives the
/// values back: the form codec is lossless.
pub proof fn lemma_form_round_trip(keys: Seq<Seq<char>>, vals: Seq<int>)
    requires
        keys.len() == vals.len(),
        forall|i: int| 0 <= i < keys.len() ==> wf_key(#[trigger] keys[i]),
        forall|i: int| 0 <= i < vals.len() ==> i64::MIN <= #[trigger] vals[i] <= i64::MAX,
    ensures
        spec_decode_form(spec_encode_form(keys, vals), keys) == Some(vals),
    decreases keys.len(),
{
    let body = spec_encode_form(keys, vals);
    if keys.len() == 0 {
        assert(vals =~= Seq::<int>::empty());
    } else {
        let k = keys[0];
        let v = vals[0];
        let pair = spec_pair(k, v);
        let istr = spec_int_str(v);
        lemma_int_str_chars(v);
        lemma_int_round_trip(v);
        assert(wf_key(k));
        assert(pair.len() == k.len() + 1 + istr.len());
        assert forall|i: int| 0 <= i < pair.len() implies pair[i] != '&' by {
            if i < k.len() {
                assert(pair[i] == k[i]);
            } else if i == k.len() {
                assert(pair[i] == '=');
            } else {
                assert(pair[i] == istr[i - k.len() - 1]);
            }
        }
        if keys.len() == 1 {
            assert(body == pair);
            lemma_first_occ_at(body, '&', body.len() as int);
            let cut = first_occ(body, '&');
            assert(cut == body.len());
            let seg = body.subrange(0, cut);
            assert(seg =~= pair);
            assert(seg.subrange(0, k.len() as int) =~= k);
            assert(seg[k.len() as int] == '=');
            assert(seg.subrange(k.len() as int + 1, seg.len() as int) =~= istr);
            assert(spec_parse_int(istr) == Some(v));
            assert(spec_decode_form(body, keys) == Some(seq![v]));
            assert(seq![v] =~= vals);
        } else {
            let tkeys = keys.subrange(1, keys.len() as int);
            let tvals = vals.subrange(1, vals.len() as int);
            let rest = spec_encode_form(tkeys, tvals);
            assert(body == pair + seq!['&'] + rest);
            assert forall|i: int| 0 <= i < pair.len() implies body[i] != '&' by {
                assert(body[i] == pair[i]);
            }
            assert(body[pair.len() as int] == '&');
            lemma_first_occ_at(body, '&', pair.len() as int);
            let cut = first_occ(body, '&');
            assert(cut == pair.len());
            let seg = body.subrange(0, cut);
            assert(seg =~= pair);
            assert(seg.subrange(0, k.len() as int) =~= k);
            assert(seg[k.len() as int] == '=');
            assert(seg.subrange(k.len() as int + 1, seg.len() as int) =~= istr);
            assert(spec_parse_int(istr) == Some(v));
            assert(cut < body.len());
            assert(body.subrange(cut + 1, body.len() as int) =~= rest);
            lemma_form_round_trip(tkeys, tvals);
            assert(spec_decode_form(rest, tkeys) == Some(tvals));
            assert(spec_decode_form(body, keys) == Some(seq![v] + tvals));
            assert(seq![v] + tvals =~= vals);
        }
    }
}

/// A successful decode pins the body down: it was exactly the encoding of
/// the returned values, each of which is in range.
pub proof fn lemma_decode_form_sound(body: Seq<char>, keys: Seq<Seq<char>>, vals: Seq<int>)
    requires
        spec_decode_form(body, keys) == Some(vals),
    ensures
        vals.len() == keys.len(),
        forall|i: int| 0 <= i < vals.len() ==> i64::MIN <= #[trigger] vals[i] <= i64::MAX,
        body == spec_encode_form(keys, vals),
    decreases keys.len(),
{
    if keys.len() == 0 {
        assert(body.len() == 0);
        assert(vals =~= Seq::<int>::empty());
        assert(body =~= spec_encode_form(keys, vals));
    } else {
        let cut = first_occ(body, '&');
        lemma_first_occ(body, '&');
        let seg = body.subrange(0, cut);
        let k = keys[0];
        let token = seg.subrange(k.len() as int + 1, seg.len() as int);
        let v = spec_parse_int(token).unwrap();
        lemma_parse_int_sound(token, v);
        assert(seg =~= k + seq!['='] + token);
        assert(seg == spec_pair(k, v));
        if keys.len() == 1 {
            assert(cut == body.len());
            assert(seg =~= body);
            assert(vals == seq![v]);
            assert(spec_encode_form(keys, vals) == spec_pair(k, v));
        } else {
            assert(cut < body.len());
            let tail = body.subrange(cut + 1, body.len() as int);
            let tkeys = keys.subrange(1, keys.len() as int);
            let rest = spec_decode_form(tail, tkeys).unwrap();
            assert(vals == seq![v] + rest);
            lemma_decode_form_sound(tail, tkeys, rest);
            assert(body[cut] == '&');
            assert(body =~= seg + seq!['&'] + tail);
            assert(vals.subrange(1, vals.len() as int) =~= rest);
            assert(vals[0] == v);
            assert(spec_encode_form(keys, vals) == spec_pair(k, v) + seq!['&'] + spec_encode_form(
                tkeys,
                rest,
            ));
            assert forall|i: int| 0 <= i < vals.len() implies i64::MIN <= #[trigger] vals[i]
                <= i64::MAX by {
                if i >= 1 {
                    assert(vals[i] == rest[i - 1]);
                }
            }
        }
    }
}

// ---------------------------------------------------------------------------
// Executable integer codec
// ---------------------------------------------------------------------------

fn digit_check(c: char) -> (r: bool)
    ensures
        r == is_digit(c),
{
    c == '0' || c == '1' || c == '2' || c == '3' || c == '4' || c == '5' || c == '6' || c == '7'
        || c == '8' || c == '9'
}

fn digit_value(c: char) -> (v: u64)
    requires
        is_digit(c),
    ensures
        v == digit_val(c),
{
    if c == '0' {
        0
    } else if c == '1' {
        1
    } else if c == '2' {
        2
    } else if c == '3' {
        3
    } else if c == '4' {
        4
    } else if c == '5' {
        5
    } else if c == '6' {
        6
    } else if c == '7' {
        7
    } else if c == '8' {
        8
    } else {
        9
    }
}

fn digit_str(d: u64) -> (r: &'static str)
    requires
        d < 10,
    ensures
        r@ == seq![digit_char(d as int)],
{
    proof {
        reveal_strlit("0");
        reveal_strlit("1");
        reveal_strlit("2");
        reveal_strlit("3");
        reveal_strlit("4");
        reveal_strlit("5");
        reveal_strlit("6");
        reveal_strlit("7");
        reveal_strlit("8");
        reveal_strlit("9");
        assert("0"@ =~= seq![digit_char(0)]);
        assert("1"@ =~= seq![digit_char(1)]);
        assert("2"@ =~= seq![digit_char(2)]);
        assert("3"@ =~= seq![digit_char(3)]);
        assert("4"@ =~= seq![digit_char(4)]);
        assert("5"@ =~= seq![digit_char(5)]);
        assert("6"@ =~= seq![digit_char(6)]);
        assert("7"@ =~= seq![digit_char(7)]);
        assert("8"@ =~= seq![digit_char(8)]);
        assert("9"@ =~= seq![digit_char(9)]);
    }
    if d == 0 {
        "0"
    } else if d == 1 {
        "1"
    } else if d == 2 {
        "2"
    } else if d == 3 {
        "3"
    } else if d == 4 {
        "4"
    } else if d == 5 {
        "5"
    } else if d == 6 {
        "6"
    } else if d == 7 {
        "7"
    } else if d == 8 {
        "8"
    } else {
        "9"
    }
}

fn encode_digits(n: u64) -> (r: String)
    ensures
        r@ == digits_of(n as nat),
    decreases n,
{
    if n < 10 {
        String::from_str(digit_str(n))
    } else {
        proof {
            assert(n / 10 < n) by (nonlinear_arith)
                requires
                    n >= 10,
            ;
        }
        let mut r = encode_digits(n / 10);
        r.append(digit_str(n % 10));
        proof {
            assert(digits_of((n / 10) as nat).push(digit_char((n % 10) as int)) =~= digits_of(
                (n / 10) as nat,
            ) + seq![digit_char((n % 10) as int)]);
        }
        r
    }
}

/// Encode an integer as its canonical decimal text.
pub fn encode_int(v: i64) -> (r: String)
    ensures
        r@ == spec_int_str(v as int),
{
    if v >= 0 {
        encode_digits(v as u64)
    } else {
        let m: u64 = if v == i64::MIN {
            9223372036854775808u64
        } else {
            (-v) as u64
        };
        let mut r = String::from_str("-");
        let tail = encode_digits(m);
        r.append(tail.as_str());
        proof {
            reveal_strlit("-");
            assert("-"@ =~= seq!['-']);
        }
        r
    }
}

/// Parse a whole string as one canonical signed decimal integer.
///
/// Returns `Some(v)` exactly when the input is `spec_int_str(v)` for a value
/// representable as an `i64`; on every other input it returns `None`.
pub fn parse_int_exact(s: &str) -> (r: Option<i64>)
    ensures
        match r {
            Some(v) => spec_parse_int(s@) == Some(v as int),
            None => spec_parse_int(s@) is None,
        },
{
    let n = s.unicode_len();
    if n == 0 {
        return None;
    }
    let neg = s.get_char(0) == '-';
    let start: usize = if neg {
        1
    } else {
        0
    };
    if n <= start {
        return None;
    }
    let ghost t = s@.subrange(start as int, n as int);
    proof {
        if !neg {
            assert(t =~= s@);
        }
    }
    let first = s.get_char(start);
    if !digit_check(first) {
        proof {
            assert(t[0] == first);
            assert(!canon_digits(t));
            assert(!canon_digits(s@));
        }
        return None;
    }
    if first == '0' && n - start > 1 {
        proof {
            assert(t[0] == '0' && t.len() > 1);
        }
        return None;
    }
    if neg && first == '0' {
        proof {
            lemma_val_of_unit(t);
        }
        return None;
    }
    if n - start > 19 {
        proof {
            if all_digits(t) {
                lemma_val_of_pos(t);
                lemma_pow10_mono(19, (t.len() - 1) as nat);
                reveal_with_fuel(pow10, 21);
                assert(pow10(19) == 10000000000000000000);
                assert(val_of(t) >= 10000000000000000000);
            }
        }
        return None;
    }
    let mut acc: u64 = 0;
    let mut i: usize = start;
    while i < n
        invariant
            start <= i <= n,
            start < n,
            n - start <= 19,
            n == s@.len(),
            start == 0 || start == 1,
            start == 1 ==> s@[0] == '-',
            start == 0 ==> s@[0] != '-',
            start == 0 ==> t == s@,
            t == s@.subrange(start as int, n as int),
            acc == val_of(s@.subrange(start as int, i as int)),
            all_digits(s@.subrange(start as int, i as int)),
            acc < pow10((i - start) as nat),
        decreases n - i,
    {
        let c = s.get_char(i);
        let ghost prefix = s@.subrange(start as int, i as int);
        if !digit_check(c) {
            proof {
                assert(t[i - start] == c);
                assert(!all_digits(t));
            }
            return None;
        }
        let d = digit_value(c);
        proof {
            lemma_pow10_mono((i - start) as nat, 18);
            reveal_with_fuel(pow10, 20);
            assert(pow10(18) == 1000000000000000000);
            assert(acc * 10 + d < pow10(((i - start) + 1) as nat)) by (nonlinear_arith)
                requires
                    acc < pow10((i - start) as nat),
                    d < 10,
                    pow10(((i - start) + 1) as nat) == 10 * pow10((i - start) as nat),
            ;
            assert(acc * 10 + d <= 10000000000000000009) by (nonlinear_arith)
                requires
                    acc <= 1000000000000000000,
                    d < 10,
            ;
        }
        acc = acc * 10 + d;
        proof {
            let q = s@.subrange(start as int, (i + 1) as int);
            assert(q.drop_last() =~= prefix);
            assert(q.last() == c);
            assert(val_of(q) == val_of(prefix) * 10 + digit_val(c));
            assert(forall|j: int| 0 <= j < q.len() ==> q[j] == if j < prefix.len() {
                prefix[j]
            } else {
                c
            });
        }
        i = i + 1;
    }
    proof {
        assert(s@.subrange(start as int, i as int) == t);
        assert(canon_digits(t)) by {
            assert(t[0] == first);
        }
        if neg {
            assert(s@[0] == '-');
            assert(t[0] != '0');
            lemma_val_of_pos(t);
        } else {
            assert(s@[0] != '-');
            assert(t =~= s@);
        }
    }
    if neg {
        if acc > 9223372036854775808u64 {
            None
        } else if acc == 9223372036854775808u64 {
            Some(i64::MIN)
        } else {
            Some(-(acc as i64))
        }
    } else {
        if acc > 9223372036854775807u64 {
            None
        } else {
            Some(acc as i64)
        }
    }
}

// ---------------------------------------------------------------------------
// Executable form codec
// ---------------------------------------------------------------------------

/// The integer views of a vector of machine integers.
pub open spec fn ints_of(vs: Seq<i64>) -> Seq<int> {
    vs.map_values(|x: i64| x as int)
}

fn encode_form_rec(keys: &Vec<String>, vals: &Vec<i64>, j: usize) -> (r: String)
    requires
        keys.len() == vals.len(),
        j <= keys.len(),
    ensures
        r@ == spec_encode_form(
            keys.deep_view().subrange(j as int, keys.len() as int),
            ints_of(vals@).subrange(j as int, vals.len() as int),
        ),
    decreases keys.len() - j,
{
    let ghost ks = keys.deep_view().subrange(j as int, keys.len() as int);
    let ghost vs = ints_of(vals@).subrange(j as int, vals.len() as int);
    if j == keys.len() {
        let r = String::new();
        proof {
            assert(ks.len() == 0);
        }
        r
    } else {
        let mut r = String::new();
        r.append(keys[j].as_str());
        r.append("=");
        let enc = encode_int(vals[j]);
        r.append(enc.as_str());
        proof {
            reveal_strlit("=");
            assert("="@ =~= seq!['=']);
            assert(ks[0] == keys.deep_view()[j as int]);
            assert(keys.deep_view()[j as int] == keys@[j as int]@);
            assert(vs[0] == vals@[j as int] as int);
            assert(r@ =~= spec_pair(ks[0], vs[0]));
        }
        if j + 1 == keys.len() {
            proof {
                assert(ks.len() == 1);
            }
            r
        } else {
            r.append("&");
            let tail = encode_form_rec(keys, vals, j + 1);
            r.append(tail.as_str());
            proof {
                reveal_strlit("&");
                assert("&"@ =~= seq!['&']);
                assert(keys.deep_view().subrange(j as int + 1, keys.len() as int) =~= ks.subrange(
                    1,
                    ks.len() as int,
                ));
                assert(ints_of(vals@).subrange(j as int + 1, vals.len() as int) =~= vs.subrange(
                    1,
                    vs.len() as int,
                ));
                assert(r@ =~= spec_pair(ks[0], vs[0]) + seq!['&'] + spec_encode_form(
                    ks.subrange(1, ks.len() as int),
                    vs.subrange(1, vs.len() as int),
                ));
            }
            r
        }
    }
}

/// Encode an argument payload for a schema: `key=value` pairs in schema
/// order, joined by `&`.
pub fn encode_form(keys: &Vec<String>, vals: &Vec<i64>) -> (r: String)
    requires
        keys.len() == vals.len(),
    ensures
        r@ == spec_encode_form(keys.deep_view(), ints_of(vals@)),
{
    let r = encode_form_rec(keys, vals, 0);
    proof {
        assert(keys.deep_view().subrange(0, keys.len() as int) =~= keys.deep_view());
        assert(ints_of(vals@).subrange(0, vals.len() as int) =~= ints_of(vals@));
    }
    r
}

fn decode_form_rec(body: &str, keys: &Vec<String>, j: usize) -> (r: Option<Vec<i64>>)
    requires
        j <= keys.len(),
    ensures
        match r {
            Some(vs) => spec_decode_form(
                body@,
                keys.deep_view().subrange(j as int, keys.len() as int),
            ) == Some(ints_of(vs@)),
            None => spec_decode_form(
                body@,
                keys.deep_view().subrange(j as int, keys.len() as int),
            ) is None,
        },
    decreases keys.len() - j,
{
    let ghost ks = keys.deep_view().subrange(j as int, keys.len() as int);
    let n = body.unicode_len();
    if j == keys.len() {
        if n == 0 {
            let out: Vec<i64> = Vec::new();
            proof {
                assert(ints_of(out@) =~= Seq::<int>::empty());
            }
            Some(out)
        } else {
            None
        }
    } else {
        let key = &keys[j];
        let klen = key.as_str().unicode_len();
        proof {
            assert(ks[0] == keys@[j as int]@);
        }
        // find the first `&`, or the end of the body
        let mut cut: usize = 0;
        while cut < n && body.get_char(cut) != '&'
            invariant
                0 <= cut <= n,
                n == body@.len(),
                forall|i: int| 0 <= i < cut ==> body@[i] != '&',
            decreases n - cut,
        {
            cut = cut + 1;
        }
        proof {
            lemma_first_occ_at(body@, '&', cut as int);
        }
        let ghost seg = body@.subrange(0, cut as int);
        if cut <= klen {
            return None;
        }
        // the segment must open with the schema key and an equals sign
        let mut i: usize = 0;
        while i < klen
            invariant
                0 <= i <= klen,
                klen < cut <= n,
                n == body@.len(),
                key@ == keys@[j as int]@,
                klen == key@.len(),
                j < keys.len(),
                ks == keys.deep_view().subrange(j as int, keys.len() as int),
                ks[0] == key@,
                first_occ(body@, '&') == cut as int,
                seg == body@.subrange(0, cut as int),
                forall|p: int| 0 <= p < i ==> body@[p] == key@[p],
            decreases klen - i,
        {
            if body.get_char(i) != key.as_str().get_char(i) {
                proof {
                    assert(seg.subrange(0, klen as int)[i as int] == body@[i as int]);
                    assert(seg.subrange(0, klen as int) != ks[0]);
                }
                return None;
            }
            i = i + 1;
        }
        proof {
            assert(seg.subrange(0, klen as int) =~= ks[0]);
        }
        if body.get_char(klen) != '=' {
            proof {
                assert(seg[klen as int] == body@[klen as int]);
            }
            return None;
        }
        let token = body.substring_char(klen + 1, cut);
        proof {
            assert(token@ =~= seg.subrange(klen as int + 1, seg.len() as int));
        }
        let parsed = parse_int_exact(token);
        match parsed {
            None => None,
            Some(v) => {
                if j + 1 == keys.len() {
                    if cut == n {
                        let mut out: Vec<i64> = Vec::new();
                        out.push(v);
                        proof {
                            assert(ks.len() == 1);
                            assert(ints_of(out@) =~= seq![v as int]);
                        }
                        Some(out)
                    } else {
                        None
                    }
                } else {
                    if cut == n {
                        proof {
                            assert(ks.len() > 1);
                        }
                        None
                    } else {
                        let tail = body.substring_char(cut + 1, n);
                        proof {
                            assert(tail@ =~= body@.subrange(cut as int + 1, body@.len() as int));
                            assert(keys.deep_view().subrange(j as int + 1, keys.len() as int)
                                =~= ks.subrange(1, ks.len() as int));
                        }
                        match decode_form_rec(tail, keys, j + 1) {
                            None => None,
                            Some(mut out) => {
                                out.insert(0, v);
                                proof {
                                    assert(ints_of(out@) =~= seq![v as int] + ints_of(
                                        out@.subrange(1, out@.len() as int),
                                    ));
                                }
                                Some(out)
                            },
                        }
                    }
                }
            },
        }
    }
}

/// Decode a form body against a schema.
///
/// Returns `Some(vals)` exactly when the body is `spec_encode_form` of the
/// schema keys with in-range values `vals`; every other body gives `None`.
pub fn decode_form(body: &str, keys: &Vec<String>) -> (r: Option<Vec<i64>>)
    ensures
        match r {
            Some(vs) => spec_decode_form(body@, keys.deep_view()) == Some(ints_of(vs@)),
            None => spec_decode_form(body@, keys.deep_view()) is None,
        },
{
    let r = decode_form_rec(body, keys, 0);
    proof {
        assert(keys.deep_view().subrange(0, keys.len() as int) =~= keys.deep_view());
    }
    r
}

// ---------------------------------------------------------------------------
// Result envelopes
// ---------------------------------------------------------------------------

/// Marker that opens a success envelope.
pub open spec fn ok_marker() -> Seq<char> {
    seq!['o', 'k', '=']
}

/// Marker that opens a domain-error envelope.
pub open spec fn err_marker() -> Seq<char> {
    seq!['e', 'r', 'r', '=']
}

/// The integer/text view of a procedure outcome.
pub open spec fn outcome_view(r: Result<i64, String>) -> Result<int, Seq<char>> {
    match r {
        Ok(v) => Ok(v as int),
        Err(m) => Err(m@),
    }
}

/// Encode a procedure outcome into a response body.  A domain error travels
/// in a success envelope of its own, distinguishable from a success value.
pub open spec fn spec_encode_envelope(res: Result<int, Seq<char>>) -> Seq<char> {
    match res {
        Ok(v) => ok_marker() + spec_int_str(v),
        Err(m) => err_marker() + m,
    }
}

/// Decode a response body back into a procedure outcome.
pub open spec fn spec_decode_envelope(s: Seq<char>) -> Option<Result<int, Seq<char>>> {
    if s.len() >= 3 && s.subrange(0, 3) == ok_marker() {
        match spec_parse_int(s.subrange(3, s.len() as int)) {
            Some(v) => Some(Ok(v)),
            None => None,
        }
    } else if s.len() >= 4 && s.subrange(0, 4) == err_marker() {
        Some(Err(s.subrange(4, s.len() as int)))
    } else {
        None
    }
}

/// The envelope codec is lossless: decoding an encoded outcome gives the
/// outcome back, success and domain error alike.
pub proof fn lemma_envelope_round_trip(res: Result<int, Seq<char>>)
    requires
        res matches Ok(v) ==> i64::MIN <= v <= i64::MAX,
    ensures
        spec_decode_envelope(spec_encode_envelope(res)) == Some(res),
{
    let s = spec_encode_envelope(res);
    match res {
        Ok(v) => {
            lemma_int_round_trip(v);
            lemma_digits_of_canon(if v < 0 {
                (-v) as nat
            } else {
                v as nat
            });
            assert(s.subrange(0, 3) =~= ok_marker());
            assert(s.subrange(3, s.len() as int) =~= spec_int_str(v));
        },
        Err(m) => {
            assert(s[0] == 'e');
            assert(s.len() >= 3 ==> s.subrange(0, 3)[0] == 'e');
            assert(s.subrange(0, 4) =~= err_marker());
            assert(s.subrange(4, s.len() as int) =~= m);
        },
    }
}

/// Encode a procedure outcome for the wire.
pub fn encode_envelope(res: &Result<i64, String>) -> (r: String)
    ensures
        r@ == spec_encode_envelope(outcome_view(*res)),
{
    let mut out: String;
    match res {
        Ok(v) => {
            out = String::from_str("ok=");
            let enc = encode_int(*v);
            out.append(enc.as_str());
            proof {
                reveal_strlit("ok=");
                assert("ok="@ =~= ok_marker());
            }
        },
        Err(m) => {
            out = String::from_str("err=");
            out.append(m.as_str());
            proof {
                reveal_strlit("err=");
                assert("err="@ =~= err_marker());
            }
        },
    }
    out
}

/// Decode a response body into a procedure outcome, or `None` when the body
/// is no envelope at all.
pub fn decode_envelope(s: &str) -> (r: Option<Result<i64, String>>)
    ensures
        match r {
            Some(res) => spec_decode_envelope(s@) == Some(outcome_view(res)),
            None => spec_decode_envelope(s@) is None,
        },
{
    let n = s.unicode_len();
    if n >= 3 && s.get_char(0) == 'o' && s.get_char(1) == 'k' && s.get_char(2) == '=' {
        proof {
            assert(s@.subrange(0, 3) =~= ok_marker());
        }
        let token = s.substring_char(3, n);
        proof {
            assert(token@ =~= s@.subrange(3, s@.len() as int));
        }
        match parse_int_exact(token) {
            Some(v) => Some(Ok(v)),
            None => None,
        }
    } else if n >= 4 && s.get_char(0) == 'e' && s.get_char(1) == 'r' && s.get_char(2) == 'r'
        && s.get_char(3) == '=' {
        proof {
            assert(s@.subrange(0, 4) =~= err_marker());
            if s@.len() >= 3 && s@.subrange(0, 3) == ok_marker() {
                assert(s@.subrange(0, 3)[0] == 'o');
                assert(false);
            }
        }
        let msg = s.substring_char(4, n);
        proof {
            assert(msg@ =~= s@.subrange(4, s@.len() as int));
        }
        Some(Err(msg.to_owned()))
    } else {
        proof {
            if s@.len() >= 3 && s@.subrange(0, 3) == ok_marker() {
                assert(s@[0] == 'o' && s@[1] == 'k' && s@[2] == '=');
            }
            if s@.len() >= 4 && s@.subrange(0, 4) == err_marker() {
                assert(s@[0] == 'e' && s@[1] == 'r' && s@[2] == 'r' && s@[3] == '=');
            }
        }
        None
    }
}

} // verus!
