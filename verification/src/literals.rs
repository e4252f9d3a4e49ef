//! Literal forms of the notation: decimal integers, decimal floats, booleans.
//!
//! An integer literal is an optional sign followed by decimal digits, with a
//! value that fits a 64-bit signed integer. A float literal is an optional
//! sign followed by decimal digits with at most one point and at least one
//! digit; its value is kept as canonical text (no leading zeros before the
//! point, no trailing zeros after it), which is also the text that
//! interpolation prints.
use vstd::prelude::*;

verus! {

pub open spec fn is_digit(c: char) -> bool {
    '0' <= c && c <= '9'
}

pub open spec fn digit_val(c: char) -> int {
    c as u32 - 48
}

pub open spec fn digit_char(d: int) -> char {
    ((48 + d) as u8) as char
}

pub open spec fn all_digits(s: Seq<char>) -> bool {
    forall|i: int| 0 <= i < s.len() ==> is_digit(#[trigger] s[i])
}

/// The value of a plain digit string, most significant digit first.
pub open spec fn digits_val(s: Seq<char>) -> int
    decreases s.len(),
{
    if s.len() == 0 {
        0
    } else {
        digits_val(s.drop_last()) * 10 + digit_val(s.last())
    }
}

/// The digits after an optional leading sign.
pub open spec fn sign_body(s: Seq<char>) -> Seq<char> {
    if s.len() >= 1 && (s[0] == '+' || s[0] == '-') {
        s.drop_first()
    } else {
        s
    }
}

pub open spec fn sign_neg(s: Seq<char>) -> bool {
    s.len() >= 1 && s[0] == '-'
}

/// An optional sign followed by at least one digit.
pub open spec fn int_lit_shape(s: Seq<char>) -> bool {
    sign_body(s).len() >= 1 && all_digits(sign_body(s))
}

pub open spec fn int_lit_val(s: Seq<char>) -> int {
    if sign_neg(s) {
        -digits_val(sign_body(s))
    } else {
        digits_val(sign_body(s))
    }
}

/// A well-shaped integer literal whose value fits a 64-bit signed integer.
pub open spec fn is_int_lit(s: Seq<char>) -> bool {
    int_lit_shape(s) && i64::MIN <= int_lit_val(s) <= i64::MAX
}

pub proof fn lemma_digits_val_nonneg(s: Seq<char>)
    requires
        all_digits(s),
    ensures
        digits_val(s) >= 0,
    decreases s.len(),
{
    if s.len() > 0 {
        assert(all_digits(s.drop_last())) by {
            assert(forall|i: int|
                0 <= i < s.drop_last().len() ==> s.drop_last()[i] == #[trigger] s[i]);
        }
        lemma_digits_val_nonneg(s.drop_last());
    }
}

/// Extending a digit string to the right never lowers its value.
pub proof fn lemma_digits_val_prefix_le(s: Seq<char>, k: int)
    requires
        all_digits(s),
        0 <= k <= s.len(),
    ensures
        digits_val(s.take(k)) <= digits_val(s),
    decreases s.len() - k,
{
    if k < s.len() {
        let t = s.take(k + 1);
        assert(t.drop_last() =~= s.take(k));
        assert(all_digits(s.take(k))) by {
            assert(forall|i: int| 0 <= i < k ==> s.take(k)[i] == #[trigger] s[i]);
        }
        lemma_digits_val_nonneg(s.take(k));
        assert(digits_val(t) == digits_val(s.take(k)) * 10 + digit_val(t.last()));
        assert(digit_val(t.last()) >= 0);
        lemma_digits_val_prefix_le(s, k + 1);
    } else {
        assert(s.take(k) =~= s);
    }
}

/// Parses a signed decimal integer literal. Returns the value exactly when
/// the text is a well-shaped literal that fits a 64-bit signed integer.
pub fn parse_int(s: &Vec<char>) -> (r: Option<i64>)
    ensures
        r is Some <==> is_int_lit(s@),
        r matches Some(v) ==> v as int == int_lit_val(s@),
{
    let ghost sq = s@;
    let mut start: usize = 0;
    let mut neg: bool = false;
    if s.len() >= 1 && (s[0] == '+' || s[0] == '-') {
        start = 1;
        neg = s[0] == '-';
    }
    proof {
        assert(sign_body(sq) =~= sq.skip(start as int));
        assert(neg == sign_neg(sq));
    }
    if start >= s.len() {
        return Option::None;
    }
    let limit: u64 = if neg {
        9223372036854775808
    } else {
        9223372036854775807
    };
    let mut mag: u64 = 0;
    let mut i: usize = start;
    while i < s.len()
        invariant
            start <= i <= s@.len(),
            start <= 1,
            s@ == sq,
            sign_body(sq) == sq.skip(start as int),
            neg == sign_neg(sq),
            limit == if neg { 9223372036854775808u64 } else { 9223372036854775807u64 },
            all_digits(sq.subrange(start as int, i as int)),
            mag == digits_val(sq.subrange(start as int, i as int)),
            mag <= limit,
        decreases s@.len() - i,
    {
        let c = s[i];
        if !('0' <= c && c <= '9') {
            proof {
                assert(sign_body(sq)[i - start] == c);
                assert(!all_digits(sign_body(sq)));
            }
            return Option::None;
        }
        let d: u64 = (c as u32 - 48) as u64;
        if mag > (limit - d) / 10 {
            // Even the digits read so far exceed the representable range.
            proof {
                let pre = sq.subrange(start as int, (i + 1) as int);
                assert(pre.drop_last() =~= sq.subrange(start as int, i as int));
                assert(digits_val(pre) == mag * 10 + d);
                assert(digits_val(pre) > limit);
                if int_lit_shape(sq) {
                    assert(sign_body(sq).take(i + 1 - start) =~= pre);
                    lemma_digits_val_prefix_le(sign_body(sq), i + 1 - start);
                }
            }
            return Option::None;
        }
        proof {
            let pre = sq.subrange(start as int, (i + 1) as int);
            assert(pre.drop_last() =~= sq.subrange(start as int, i as int));
            assert(forall|j: int| 0 <= j < pre.len() ==> pre[j] == #[trigger] sq[start + j]);
        }
        mag = mag * 10 + d;
        i = i + 1;
    }
    proof {
        assert(sq.subrange(start as int, i as int) =~= sign_body(sq));
        assert(int_lit_shape(sq));
        if neg {
            assert(int_lit_val(sq) == -(mag as int));
        } else {
            assert(int_lit_val(sq) == mag as int);
        }
    }
    if neg {
        if mag == 9223372036854775808 {
            Option::Some(i64::MIN)
        } else {
            Option::Some(-(mag as i64))
        }
    } else {
        Option::Some(mag as i64)
    }
}

/// The decimal digits of a non-negative number, most significant first.
pub open spec fn nat_digits(n: int) -> Seq<char>
    recommends
        n >= 0,
    decreases n,
{
    if n <= 9 {
        seq![digit_char(n)]
    } else {
        nat_digits(n / 10).push(digit_char(n % 10))
    }
}

/// The canonical text of a signed integer.
pub open spec fn int_text(n: int) -> Seq<char> {
    if n < 0 {
        seq!['-'] + nat_digits(-n)
    } else {
        nat_digits(n)
    }
}

/// Renders a 64-bit signed integer as decimal text.
pub fn int_to_chars(n: i64) -> (r: Vec<char>)
    ensures
        r@ == int_text(n as int),
{
    let neg = n < 0;
    let mag: u64 = if n == i64::MIN {
        9223372036854775808
    } else if n < 0 {
        (-n) as u64
    } else {
        n as u64
    };
    let mut tmp: Vec<char> = Vec::new();
    let mut m: u64 = mag;
    proof {
        assert(tmp@.reverse() =~= Seq::<char>::empty());
        assert(nat_digits(mag as int) =~= nat_digits(mag as int) + tmp@.reverse());
    }
    loop
        invariant_except_break
            m <= mag,
            nat_digits(mag as int) == nat_digits(m as int) + tmp@.reverse(),
        ensures
            nat_digits(mag as int) == tmp@.reverse(),
        decreases m,
    {
        let d: u64 = m % 10;
        let c: char = ((48 + d) as u8) as char;
        proof {
            assert(c == digit_char(m as int % 10));
            assert((tmp@.push(c)).reverse() =~= seq![c] + tmp@.reverse());
            if m >= 10 {
                assert(nat_digits(m as int) == nat_digits(m as int / 10).push(digit_char(
                    m as int % 10,
                )));
                assert(nat_digits(m as int / 10).push(c) + tmp@.reverse() =~= nat_digits(
                    m as int / 10,
                ) + (seq![c] + tmp@.reverse()));
            } else {
                assert(nat_digits(m as int) == seq![c]);
                assert(seq![c] + tmp@.reverse() =~= nat_digits(m as int) + tmp@.reverse());
            }
        }
        tmp.push(c);
        m = m / 10;
        if m == 0 {
            break;
        }
    }
    let mut r: Vec<char> = Vec::new();
    if neg {
        r.push('-');
    }
    let ghost base = r@;
    let mut j: usize = tmp.len();
    while j > 0
        invariant
            0 <= j <= tmp@.len(),
            r@ == base + tmp@.reverse().take(tmp@.len() - j),
        decreases j,
    {
        j = j - 1;
        let c = tmp[j];
        proof {
            assert(tmp@.reverse().take(tmp@.len() - j) =~= tmp@.reverse().take(
                tmp@.len() - (j + 1),
            ).push(tmp@.reverse()[tmp@.len() - j - 1]));
            assert(tmp@.reverse()[tmp@.len() - j - 1] == tmp@[j as int]);
        }
        r.push(c);
    }
    proof {
        assert(tmp@.reverse().take(tmp@.len() as int) =~= tmp@.reverse());
        if neg {
            assert(r@ =~= seq!['-'] + nat_digits(mag as int));
        } else {
            assert(r@ =~= nat_digits(mag as int));
        }
    }
    r
}

pub open spec fn is_dot_or_digit(c: char) -> bool {
    c == '.' || is_digit(c)
}

pub open spec fn dot_count(s: Seq<char>) -> int
    decreases s.len(),
{
    if s.len() == 0 {
        0
    } else {
        dot_count(s.drop_last()) + if s.last() == '.' {
            1int
        } else {
            0int
        }
    }
}

/// An optional sign, then digits with at most one point and at least one
/// digit.
pub open spec fn is_float_lit(s: Seq<char>) -> bool {
    let b = sign_body(s);
    (forall|i: int| 0 <= i < b.len() ==> is_dot_or_digit(#[trigger] b[i])) && dot_count(b) <= 1
        && b.len() > dot_count(b)
}

/// Index of the first point, or the length when there is none.
pub open spec fn dot_index(s: Seq<char>) -> int
    decreases s.len(),
{
    if s.len() == 0 {
        0
    } else if s[0] == '.' {
        0
    } else {
        1 + dot_index(s.drop_first())
    }
}

/// How many leading zero characters a digit string starts with.
pub open spec fn leading_zeros(s: Seq<char>) -> int
    decreases s.len(),
{
    if s.len() == 0 || s[0] != '0' {
        0
    } else {
        1 + leading_zeros(s.drop_first())
    }
}

/// How many zero characters a digit string ends with.
pub open spec fn trailing_zeros(s: Seq<char>) -> int
    decreases s.len(),
{
    if s.len() == 0 || s.last() != '0' {
        0
    } else {
        1 + trailing_zeros(s.drop_last())
    }
}

/// The canonical text of a well-shaped float literal: an optional minus sign,
/// the integer digits without leading zeros (at least one digit), and the
/// fractional digits without trailing zeros, point omitted when none remain.
pub open spec fn float_canon(s: Seq<char>) -> Seq<char> {
    let b = sign_body(s);
    let di = dot_index(b);
    let ip = b.take(di);
    let fp = if di < b.len() {
        b.skip(di + 1)
    } else {
        Seq::<char>::empty()
    };
    let ip1 = ip.skip(leading_zeros(ip));
    let ip2 = if ip1.len() == 0 {
        seq!['0']
    } else {
        ip1
    };
    let fp1 = fp.take(fp.len() - trailing_zeros(fp));
    let head = if sign_neg(s) {
        seq!['-'] + ip2
    } else {
        ip2
    };
    if fp1.len() == 0 {
        head
    } else {
        head + seq!['.'] + fp1
    }
}

proof fn lemma_dot_index_props(s: Seq<char>)
    ensures
        0 <= dot_index(s) <= s.len(),
        forall|j: int| 0 <= j < dot_index(s) ==> #[trigger] s[j] != '.',
        dot_index(s) < s.len() ==> s[dot_index(s)] == '.',
    decreases s.len(),
{
    if s.len() > 0 && s[0] != '.' {
        let t = s.drop_first();
        lemma_dot_index_props(t);
        assert forall|j: int| 0 <= j < dot_index(s) implies #[trigger] s[j] != '.' by {
            if j > 0 {
                assert(t[j - 1] == s[j]);
            }
        }
        if dot_index(s) < s.len() {
            assert(t[dot_index(s) - 1] == s[dot_index(s)]);
        }
    }
}

proof fn lemma_leading_zeros_props(s: Seq<char>)
    ensures
        0 <= leading_zeros(s) <= s.len(),
        forall|j: int| 0 <= j < leading_zeros(s) ==> #[trigger] s[j] == '0',
        leading_zeros(s) < s.len() ==> s[leading_zeros(s)] != '0',
    decreases s.len(),
{
    if s.len() > 0 && s[0] == '0' {
        let t = s.drop_first();
        lemma_leading_zeros_props(t);
        assert forall|j: int| 0 <= j < leading_zeros(s) implies #[trigger] s[j] == '0' by {
            if j > 0 {
                assert(t[j - 1] == s[j]);
            }
        }
        if leading_zeros(s) < s.len() {
            assert(t[leading_zeros(s) - 1] == s[leading_zeros(s)]);
        }
    }
}

proof fn lemma_trailing_zeros_props(s: Seq<char>)
    ensures
        0 <= trailing_zeros(s) <= s.len(),
        forall|j: int| s.len() - trailing_zeros(s) <= j < s.len() ==> #[trigger] s[j] == '0',
        trailing_zeros(s) < s.len() ==> s[s.len() - trailing_zeros(s) - 1] != '0',
    decreases s.len(),
{
    if s.len() > 0 && s.last() == '0' {
        let t = s.drop_last();
        lemma_trailing_zeros_props(t);
        assert forall|j: int| s.len() - trailing_zeros(s) <= j < s.len() implies #[trigger] s[j]
            == '0' by {
            if j < s.len() - 1 {
                assert(t[j] == s[j]);
            }
        }
        if trailing_zeros(s) < s.len() {
            assert(t[s.len() - trailing_zeros(s) - 1] == s[s.len() - trailing_zeros(s) - 1]);
        }
    }
}

/// A prefix never has more points than the whole.
proof fn lemma_dot_count_prefix_le(s: Seq<char>, k: int)
    requires
        0 <= k <= s.len(),
    ensures
        dot_count(s.take(k)) <= dot_count(s),
    decreases s.len() - k,
{
    if k < s.len() {
        let t = s.take(k + 1);
        assert(t.drop_last() =~= s.take(k));
        assert(dot_count(t) >= dot_count(s.take(k)));
        lemma_dot_count_prefix_le(s, k + 1);
    } else {
        assert(s.take(k) =~= s);
    }
}

/// Recognizes a float literal and returns its canonical text.
#[verifier::rlimit(60)]
pub fn float_canonical(s: &Vec<char>) -> (r: Option<Vec<char>>)
    ensures
        r is Some <==> is_float_lit(s@),
        r matches Some(v) ==> v@ == float_canon(s@),
{
    let ghost sq = s@;
    let mut start: usize = 0;
    if s.len() >= 1 && (s[0] == '+' || s[0] == '-') {
        start = 1;
    }
    let neg = s.len() >= 1 && s[0] == '-';
    proof {
        assert(sign_body(sq) =~= sq.skip(start as int));
        assert(neg == sign_neg(sq));
    }
    let ghost b = sign_body(sq);
    // One pass: find the dot, check every character, count digits.
    let mut dot: usize = s.len();  // absolute index of the first '.'
    let mut saw_dot = false;
    let mut digits: u64 = 0;
    let mut i: usize = start;
    while i < s.len()
        invariant
            start <= i <= sq.len(),
            start <= 1,
            s@ == sq,
            b == sign_body(sq),
            b == sq.skip(start as int),
            forall|j: int| start <= j < i ==> is_dot_or_digit(#[trigger] sq[j]),
            saw_dot <==> dot < i,
            start <= dot,
            saw_dot ==> dot < sq.len() && sq[dot as int] == '.' && forall|j: int|
                start <= j < dot ==> #[trigger] sq[j] != '.',
            !saw_dot ==> dot == sq.len() && forall|j: int| start <= j < i ==> #[trigger] sq[j]
                != '.',
            dot_count(sq.subrange(start as int, i as int)) == if saw_dot {
                1int
            } else {
                0int
            },
            digits <= i,
            digits == i - start - if saw_dot {
                1int
            } else {
                0int
            },
        decreases sq.len() - i,
    {
        let c = s[i];
        let ghost pre = sq.subrange(start as int, i as int);
        let ghost pre1 = sq.subrange(start as int, (i + 1) as int);
        proof {
            assert(pre1.drop_last() =~= pre);
            assert(pre1.last() == sq[i as int]);
        }
        if c == '.' {
            if saw_dot {
                proof {
                    // Two points: even the prefix read so far has two.
                    assert(b.take(i + 1 - start) =~= pre1);
                    assert(dot_count(pre1) == 2);
                    lemma_dot_count_prefix_le(b, i + 1 - start);
                    assert(dot_count(sign_body(sq)) >= 2);
                    assert(!is_float_lit(sq));
                }
                return Option::None;
            }
            saw_dot = true;
            dot = i;
        } else if !('0' <= c && c <= '9') {
            proof {
                assert(sign_body(sq)[i - start] == sq[i as int]);
                assert(!is_dot_or_digit(sign_body(sq)[i - start]));
                assert(!is_float_lit(sq));
            }
            return Option::None;
        } else {
            digits = digits + 1;
        }
        i = i + 1;
    }
    proof {
        assert(sq.subrange(start as int, i as int) =~= b);
    }
    if digits == 0 {
        proof {
            assert(b.len() <= dot_count(b));
        }
        return Option::None;
    }
    proof {
        assert(is_float_lit(sq));
        lemma_dot_index_props(b);
        assert(dot_index(b) == dot - start) by {
            if saw_dot {
                lemma_dot_index_at(b, dot - start);
            } else {
                lemma_dot_index_at_end(b);
            }
        }
    }
    // Build the canonical text.
    let ghost di = dot_index(b);
    let ghost ip = b.take(di);
    let ghost fp = if di < b.len() {
        b.skip(di + 1)
    } else {
        Seq::<char>::empty()
    };
    let mut r: Vec<char> = Vec::new();
    if neg {
        r.push('-');
    }
    let ghost head0 = r@;
    // Integer part: skip leading zeros within s[start..dot].
    let mut a: usize = start;
    while a < dot && s[a] == '0'
        invariant
            start <= a <= dot,
            dot <= sq.len(),
            s@ == sq,
            b == sq.skip(start as int),
            ip == b.take(dot - start),
            forall|j: int| start <= j < a ==> #[trigger] sq[j] == '0',
        decreases dot - a,
    {
        a = a + 1;
    }
    proof {
        lemma_leading_zeros_props(ip);
        assert(leading_zeros(ip) == a - start) by {
            if a < dot {
                lemma_lz_at(ip, a - start);
            } else {
                lemma_lz_all(ip);
            }
        }
    }
    if a == dot {
        r.push('0');
    } else {
        let mut k: usize = a;
        while k < dot
            invariant
                a <= k <= dot,
                dot <= sq.len(),
                s@ == sq,
                r@ == head0 + sq.subrange(a as int, k as int),
            decreases dot - k,
        {
            proof {
                assert(sq.subrange(a as int, (k + 1) as int) =~= sq.subrange(a as int, k as int)
                    + seq![sq[k as int]]);
            }
            r.push(s[k]);
            k = k + 1;
        }
    }
    proof {
        let ip1 = ip.skip(leading_zeros(ip));
        let ip2 = if ip1.len() == 0 {
            seq!['0']
        } else {
            ip1
        };
        assert(ip1 =~= sq.subrange(a as int, dot as int));
        if a == dot {
            assert(r@ =~= head0 + ip2);
        } else {
            assert(r@ =~= head0 + ip2);
        }
    }
    // Fractional part: drop trailing zeros within s[dot+1..len].
    if saw_dot {
        let mut e: usize = s.len();
        while e > dot + 1 && s[e - 1] == '0'
            invariant
                dot + 1 <= e <= sq.len(),
                dot < sq.len(),
                s@ == sq,
                forall|j: int| e <= j < sq.len() ==> #[trigger] sq[j] == '0',
            decreases e,
        {
            e = e - 1;
        }
        proof {
            assert(fp =~= sq.subrange(dot + 1, sq.len() as int));
            lemma_trailing_zeros_props(fp);
            assert(trailing_zeros(fp) == sq.len() - e) by {
                if e > dot + 1 {
                    lemma_tz_at(fp, sq.len() - e);
                } else {
                    lemma_tz_all(fp);
                }
            }
        }
        if e > dot + 1 {
            r.push('.');
            let ghost head1 = r@;
            let mut k: usize = dot + 1;
            while k < e
                invariant
                    dot + 1 <= k <= e,
                    e <= sq.len(),
                    s@ == sq,
                    r@ == head1 + sq.subrange(dot + 1, k as int),
                decreases e - k,
            {
                proof {
                    assert(sq.subrange(dot + 1, (k + 1) as int) =~= sq.subrange(dot + 1, k as int)
                        + seq![sq[k as int]]);
                }
                r.push(s[k]);
                k = k + 1;
            }
            proof {
                let fp1 = fp.take(fp.len() - trailing_zeros(fp));
                assert(fp1 =~= sq.subrange(dot + 1, e as int));
                assert(r@ =~= float_canon(sq));
            }
        } else {
            proof {
                let fp1 = fp.take(fp.len() - trailing_zeros(fp));
                assert(fp1.len() == 0);
                assert(r@ =~= float_canon(sq));
            }
        }
    } else {
        proof {
            assert(fp.len() == 0);
            assert(r@ =~= float_canon(sq));
        }
    }
    Option::Some(r)
}

proof fn lemma_dot_index_at(s: Seq<char>, k: int)
    requires
        0 <= k < s.len(),
        s[k] == '.',
        forall|j: int| 0 <= j < k ==> #[trigger] s[j] != '.',
    ensures
        dot_index(s) == k,
    decreases k,
{
    if k > 0 {
        lemma_dot_index_at(s.drop_first(), k - 1);
    }
}

proof fn lemma_dot_index_at_end(s: Seq<char>)
    requires
        forall|j: int| 0 <= j < s.len() ==> #[trigger] s[j] != '.',
    ensures
        dot_index(s) == s.len(),
    decreases s.len(),
{
    if s.len() > 0 {
        lemma_dot_index_at_end(s.drop_first());
    }
}

proof fn lemma_lz_at(s: Seq<char>, k: int)
    requires
        0 <= k < s.len(),
        s[k] != '0',
        forall|j: int| 0 <= j < k ==> #[trigger] s[j] == '0',
    ensures
        leading_zeros(s) == k,
    decreases k,
{
    if k > 0 {
        lemma_lz_at(s.drop_first(), k - 1);
    }
}

proof fn lemma_lz_all(s: Seq<char>)
    requires
        forall|j: int| 0 <= j < s.len() ==> #[trigger] s[j] == '0',
    ensures
        leading_zeros(s) == s.len(),
    decreases s.len(),
{
    if s.len() > 0 {
        lemma_lz_all(s.drop_first());
    }
}

proof fn lemma_tz_at(s: Seq<char>, k: int)
    requires
        0 <= k < s.len(),
        s[s.len() - k - 1] != '0',
        forall|j: int| s.len() - k <= j < s.len() ==> #[trigger] s[j] == '0',
    ensures
        trailing_zeros(s) == k,
    decreases k,
{
    if k > 0 {
        assert(s.drop_last().len() == s.len() - 1);
        lemma_tz_at(s.drop_last(), k - 1);
    }
}

proof fn lemma_tz_all(s: Seq<char>)
    requires
        forall|j: int| 0 <= j < s.len() ==> #[trigger] s[j] == '0',
    ensures
        trailing_zeros(s) == s.len(),
    decreases s.len(),
{
    if s.len() > 0 {
        lemma_tz_all(s.drop_last());
    }
}

/// Index of the first occurrence of a character, or the length when there is
/// none.
pub open spec fn char_index(s: Seq<char>, c: char) -> int
    decreases s.len(),
{
    if s.len() == 0 {
        0
    } else if s[0] == c {
        0
    } else {
        1 + char_index(s.drop_first(), c)
    }
}

pub proof fn lemma_char_index_props(s: Seq<char>, c: char)
    ensures
        0 <= char_index(s, c) <= s.len(),
        forall|j: int| 0 <= j < char_index(s, c) ==> #[trigger] s[j] != c,
        char_index(s, c) < s.len() ==> s[char_index(s, c)] == c,
    decreases s.len(),
{
    if s.len() > 0 && s[0] != c {
        let t = s.drop_first();
        lemma_char_index_props(t, c);
        assert forall|j: int| 0 <= j < char_index(s, c) implies #[trigger] s[j] != c by {
            if j > 0 {
                assert(t[j - 1] == s[j]);
            }
        }
        if char_index(s, c) < s.len() {
            assert(t[char_index(s, c) - 1] == s[char_index(s, c)]);
        }
    }
}

/// Finds the first occurrence of a character.
pub fn find_char(s: &Vec<char>, c: char) -> (r: usize)
    ensures
        r as int == char_index(s@, c),
{
    proof {
        lemma_char_index_props(s@, c);
    }
    let mut i: usize = 0;
    while i < s.len()
        invariant
            0 <= i <= s@.len(),
            forall|j: int| 0 <= j < i ==> #[trigger] s@[j] != c,
            0 <= char_index(s@, c) <= s@.len(),
            forall|j: int| 0 <= j < char_index(s@, c) ==> #[trigger] s@[j] != c,
            char_index(s@, c) < s@.len() ==> s@[char_index(s@, c)] == c,
        decreases s@.len() - i,
    {
        if s[i] == c {
            proof {
                if char_index(s@, c) < i {
                    assert(s@[char_index(s@, c)] == c);
                }
            }
            return i;
        }
        i = i + 1;
    }
    proof {
        if char_index(s@, c) < s@.len() {
            assert(s@[char_index(s@, c)] == c);
        }
    }
    i
}

/// Copies a range of a character string.
pub fn copy_range(v: &Vec<char>, a: usize, b: usize) -> (r: Vec<char>)
    requires
        a <= b <= v@.len(),
    ensures
        r@ == v@.subrange(a as int, b as int),
{
    let mut r: Vec<char> = Vec::new();
    let mut i: usize = a;
    while i < b
        invariant
            a <= i <= b <= v@.len(),
            r@ == v@.subrange(a as int, i as int),
        decreases b - i,
    {
        proof {
            assert(v@.subrange(a as int, (i + 1) as int) =~= v@.subrange(a as int, i as int).push(
                v@[i as int],
            ));
        }
        r.push(v[i]);
        i = i + 1;
    }
    r
}

/// Compares two character strings.
pub fn chars_eq(a: &Vec<char>, b: &Vec<char>) -> (r: bool)
    ensures
        r == (a@ == b@),
{
    if a.len() != b.len() {
        proof {
            assert(a@ != b@);
        }
        return false;
    }
    let mut i: usize = 0;
    while i < a.len()
        invariant
            0 <= i <= a@.len(),
            a@.len() == b@.len(),
            forall|j: int| 0 <= j < i ==> #[trigger] a@[j] == b@[j],
        decreases a@.len() - i,
    {
        if a[i] != b[i] {
            proof {
                assert(a@[i as int] != b@[i as int]);
            }
            return false;
        }
        i = i + 1;
    }
    proof {
        assert(a@ =~= b@);
    }
    true
}

/// The canonical text of a boolean.
pub open spec fn bool_text(b: bool) -> Seq<char> {
    if b {
        seq!['t', 'r', 'u', 'e']
    } else {
        seq!['f', 'a', 'l', 's', 'e']
    }
}

/// Renders a boolean as text.
pub fn bool_to_chars(b: bool) -> (r: Vec<char>)
    ensures
        r@ == bool_text(b),
{
    let mut r: Vec<char> = Vec::new();
    if b {
        r.push('t');
        r.push('r');
        r.push('u');
        r.push('e');
        proof {
            assert(r@ =~= bool_text(true));
        }
    } else {
        r.push('f');
        r.push('a');
        r.push('l');
        r.push('s');
        r.push('e');
        proof {
            assert(r@ =~= bool_text(false));
        }
    }
    r
}

/// Whether a text is exactly `true`.
pub open spec fn is_true_text(s: Seq<char>) -> bool {
    s == seq!['t', 'r', 'u', 'e']
}

pub open spec fn is_false_text(s: Seq<char>) -> bool {
    s == seq!['f', 'a', 'l', 's', 'e']
}

/// Compares a text with `true`.
pub fn eq_true_text(s: &Vec<char>) -> (r: bool)
    ensures
        r == is_true_text(s@),
{
    let r = s.len() == 4 && s[0] == 't' && s[1] == 'r' && s[2] == 'u' && s[3] == 'e';
    proof {
        if r {
            assert(s@ =~= seq!['t', 'r', 'u', 'e']);
        } else {
            assert(s@ != seq!['t', 'r', 'u', 'e']);
        }
    }
    r
}

/// Compares a text with `false`.
pub fn eq_false_text(s: &Vec<char>) -> (r: bool)
    ensures
        r == is_false_text(s@),
{
    let r = s.len() == 5 && s[0] == 'f' && s[1] == 'a' && s[2] == 'l' && s[3] == 's' && s[4]
        == 'e';
    proof {
        if r {
            assert(s@ =~= seq!['f', 'a', 'l', 's', 'e']);
        } else {
            assert(s@ != seq!['f', 'a', 'l', 's', 'e']);
        }
    }
    r
}

} // verus!
