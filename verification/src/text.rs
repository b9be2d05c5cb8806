use vstd::prelude::*;

verus! {

/// Whether the two texts hold the same characters.
pub fn same_text(a: &str, b: &str) -> (r: bool)
    ensures
        r == (a@ == b@),
{
    let x = chars_of(a);
    let y = chars_of(b);
    if x.len() != y.len() {
        return false;
    }
    let n = x.len();
    let mut i: usize = 0;
    while i < n
        invariant
            n == x.len(),
            n == y.len(),
            x@ == a@,
            y@ == b@,
            i <= n,
            forall|j: int| 0 <= j < i ==> x@[j] == y@[j],
        decreases n - i,
    {
        if x[i] != y[i] {
            return false;
        }
        i = i + 1;
    }
    assert(x@ =~= y@);
    true
}

/// std's `String::push`: appends one character.
#[verifier::external_body]
pub(crate) fn push_char(s: &mut String, c: char)
    ensures
        final(s)@ == old(s)@.push(c),
{
    s.push(c);
}

/// The characters of `s`, in order.
pub fn chars_of(s: &str) -> (r: Vec<char>)
    ensures
        r@ == s@,
{
    let mut out: Vec<char> = Vec::new();
    for c in it: s.chars()
        invariant
            out@ == it.seq().take(it.index() as int),
            it.seq() == s@,
    {
        out.push(c);
    }
    out
}

/// A string holding the characters `cs`.
pub fn string_of(cs: &Vec<char>) -> (r: String)
    ensures
        r@ == cs@,
{
    let mut s = String::new();
    let n = cs.len();
    let mut i: usize = 0;
    while i < n
        invariant
            n == cs.len(),
            i <= n,
            s@ == cs@.take(i as int),
        decreases n - i,
    {
        push_char(&mut s, cs[i]);
        assert(cs@.take(i as int).push(cs@[i as int]) =~= cs@.take(i + 1));
        i = i + 1;
    }
    assert(cs@.take(n as int) =~= cs@);
    s
}

/// Unicode `White_Space`, the property that std's `char::is_whitespace` tests.
pub open spec fn is_ws(c: char) -> bool {
    let u = c as u32;
    ||| 0x9 <= u <= 0xd
    ||| u == 0x20
    ||| u == 0x85
    ||| u == 0xa0
    ||| u == 0x1680
    ||| 0x2000 <= u <= 0x200a
    ||| u == 0x2028
    ||| u == 0x2029
    ||| u == 0x202f
    ||| u == 0x205f
    ||| u == 0x3000
}

pub fn is_space(c: char) -> (r: bool)
    ensures
        r == is_ws(c),
{
    let u = c as u32;
    (0x9 <= u && u <= 0xd) || u == 0x20 || u == 0x85 || u == 0xa0 || u == 0x1680 || (0x2000
        <= u && u <= 0x200a) || u == 0x2028 || u == 0x2029 || u == 0x202f || u == 0x205f || u
        == 0x3000
}

/// `s` without its leading white space.
pub open spec fn trim_start(s: Seq<char>) -> Seq<char>
    decreases s.len(),
{
    if s.len() > 0 && is_ws(s[0]) {
        trim_start(s.drop_first())
    } else {
        s
    }
}

/// `s` without its trailing white space.
pub open spec fn trim_end(s: Seq<char>) -> Seq<char>
    decreases s.len(),
{
    if s.len() > 0 && is_ws(s.last()) {
        trim_end(s.drop_last())
    } else {
        s
    }
}

/// `s` without leading and trailing white space, as std's `str::trim` gives it.
pub open spec fn trim(s: Seq<char>) -> Seq<char> {
    trim_end(trim_start(s))
}

proof fn lemma_trim_start(s: Seq<char>, k: int)
    requires
        0 <= k <= s.len(),
        forall|j: int| 0 <= j < k ==> is_ws(s[j]),
        k == s.len() || !is_ws(s[k]),
    ensures
        trim_start(s) == s.skip(k),
    decreases k,
{
    if k > 0 {
        lemma_trim_start(s.drop_first(), k - 1);
        assert(s.drop_first().skip(k - 1) =~= s.skip(k));
    } else {
        assert(s.skip(0) =~= s);
    }
}

proof fn lemma_trim_end(s: Seq<char>, k: int)
    requires
        0 <= k <= s.len(),
        forall|j: int| k <= j < s.len() ==> is_ws(s[j]),
        k == 0 || !is_ws(s[k - 1]),
    ensures
        trim_end(s) == s.take(k),
    decreases s.len() - k,
{
    if k < s.len() {
        lemma_trim_end(s.drop_last(), k);
        assert(s.drop_last().take(k) =~= s.take(k));
    } else {
        assert(s.take(k) =~= s);
    }
}

/// A text that neither starts nor ends with white space is its own trim.
pub proof fn lemma_trim_plain(s: Seq<char>)
    requires
        s.len() > 0,
        !is_ws(s[0]),
        !is_ws(s.last()),
    ensures
        trim(s) == s,
{
}

/// `s` without leading and trailing white space.
pub fn trim_chars(s: &Vec<char>) -> (r: Vec<char>)
    ensures
        r@ == trim(s@),
{
    let n = s.len();
    let mut lo: usize = 0;
    while lo < n && is_space(s[lo])
        invariant
            n == s.len(),
            lo <= n,
            forall|j: int| 0 <= j < lo ==> is_ws(s@[j]),
        decreases n - lo,
    {
        lo = lo + 1;
    }
    proof {
        lemma_trim_start(s@, lo as int);
    }
    let mut hi: usize = n;
    while hi > lo && is_space(s[hi - 1])
        invariant
            n == s.len(),
            lo <= hi <= n,
            forall|j: int| hi <= j < n ==> is_ws(s@[j]),
        decreases hi,
    {
        hi = hi - 1;
    }
    let mut out: Vec<char> = Vec::new();
    let mut i: usize = lo;
    while i < hi
        invariant
            n == s.len(),
            lo <= i <= hi <= n,
            out@ == s@.subrange(lo as int, i as int),
        decreases hi - i,
    {
        out.push(s[i]);
        assert(s@.subrange(lo as int, i as int).push(s@[i as int]) =~= s@.subrange(
            lo as int,
            i + 1,
        ));
        i = i + 1;
    }
    proof {
        let t = s@.skip(lo as int);
        assert forall|j: int| hi - lo <= j < t.len() implies is_ws(t[j]) by {
            assert(t[j] == s@[lo + j]);
        }
        if hi > lo {
            assert(t[hi - lo - 1] == s@[hi - 1]);
        }
        lemma_trim_end(t, hi - lo);
        assert(t.take(hi - lo) =~= s@.subrange(lo as int, hi as int));
    }
    out
}

/// `s` without leading and trailing white space.
pub fn trim_text(s: &str) -> (r: String)
    ensures
        r@ == trim(s@),
{
    let cs = chars_of(s);
    let t = trim_chars(&cs);
    string_of(&t)
}

} // verus!

verus! {

pub open spec fn is_digit(c: char) -> bool {
    48 <= (c as u32) <= 57
}

pub open spec fn digit_value(c: char) -> int {
    (c as u32) - 48
}

pub open spec fn digit_char(d: int) -> char {
    (d + 48) as char
}

proof fn lemma_digit_char(d: int)
    requires 0 <= d < 10,
    ensures is_digit(digit_char(d)), digit_value(digit_char(d)) == d,
{
}

proof fn lemma_digit_value(c: char)
    requires is_digit(c),
    ensures digit_char(digit_value(c)) == c, 0 <= digit_value(c) < 10,
{
    assert(((c as u32) as char) == c);
}

/// A digit other than zero has a value of at least one.
pub proof fn lemma_nonzero_digit(c: char)
    requires
        is_digit(c),
        c != '0',
    ensures
        digit_value(c) >= 1,
{
    lemma_digit_value(c);
    if digit_value(c) == 0 {
        assert(digit_char(0) == '0');
    }
}

fn digit_of(d: u64) -> (c: char)
    requires d < 10,
    ensures c == digit_char(d as int),
{
    ((d as u8) + 48) as char
}

} // verus!

verus! {

/// Decimal digits of `n`, without leading zeros.
pub open spec fn nat_text(n: nat) -> Seq<char>
    decreases n,
{
    if n < 10 {
        seq![digit_char(n as int)]
    } else {
        nat_text(n / 10).push(digit_char((n % 10) as int))
    }
}

/// Decimal text of `i`, as std's `to_string` writes an integer.
pub open spec fn int_text(i: int) -> Seq<char> {
    if i < 0 {
        seq!['-'] + nat_text((-i) as nat)
    } else {
        nat_text(i as nat)
    }
}

/// The number that a string of decimal digits denotes.
pub open spec fn digits_value(s: Seq<char>) -> nat
    decreases s.len(),
{
    if s.len() == 0 {
        0
    } else {
        digits_value(s.drop_last()) * 10 + (digit_value(s.last()) as nat)
    }
}

pub open spec fn all_digits(s: Seq<char>) -> bool {
    forall|i: int| 0 <= i < s.len() ==> is_digit(#[trigger] s[i])
}

/// Digits with no leading zero, or the single digit zero.
pub open spec fn canonical_digits(s: Seq<char>) -> bool {
    &&& s.len() > 0
    &&& all_digits(s)
    &&& (s.len() == 1 || s[0] != '0')
}

pub proof fn lemma_nat_text(n: nat)
    ensures
        canonical_digits(nat_text(n)),
        digits_value(nat_text(n)) == n,
        n > 0 ==> nat_text(n)[0] != '0',
    decreases n,
{
    if n < 10 {
        lemma_digit_char(n as int);
        let s = nat_text(n);
        assert(s.drop_last() =~= Seq::<char>::empty());
        assert(digits_value(s.drop_last()) == 0);
    } else {
        lemma_nat_text(n / 10);
        lemma_digit_char((n % 10) as int);
        let s = nat_text(n);
        assert(s.drop_last() =~= nat_text(n / 10));
        assert(s[0] == nat_text(n / 10)[0]);
        assert(digits_value(s) == (n / 10) * 10 + n % 10);
        assert((n / 10) * 10 + n % 10 == n) by (nonlinear_arith);
    }
}

proof fn lemma_digits_positive(s: Seq<char>)
    requires
        s.len() > 0,
        all_digits(s),
        s[0] != '0',
    ensures
        digits_value(s) >= 1,
    decreases s.len(),
{
    if s.len() > 1 {
        let p = s.drop_last();
        assert(p[0] == s[0]);
        lemma_digits_positive(p);
        assert(is_digit(s[s.len() - 1]));
    } else {
        assert(s[0] == s.last());
        assert(s.drop_last() =~= Seq::<char>::empty());
        assert(digits_value(s.drop_last()) == 0);
        assert(is_digit(s[0]));
        lemma_digit_value(s[0]);
        assert(digit_char(0) == '0');
    }
}

pub proof fn lemma_canonical_digits(s: Seq<char>)
    requires
        canonical_digits(s),
    ensures
        nat_text(digits_value(s)) == s,
    decreases s.len(),
{
    if s.len() == 1 {
        assert(s.drop_last() =~= Seq::<char>::empty());
        assert(digits_value(s.drop_last()) == 0);
        assert(is_digit(s[0]));
        assert(s.last() == s[0]);
        lemma_digit_value(s[0]);
        let d = digit_value(s[0]);
        assert(digits_value(s) == d);
        assert(digit_char(d) == s[0]);
        assert(nat_text(digits_value(s)) =~= s);
    } else {
        let p = s.drop_last();
        assert(p[0] == s[0]);
        assert(canonical_digits(p));
        lemma_canonical_digits(p);
        lemma_digits_positive(p);
        let vp = digits_value(p);
        assert(is_digit(s[s.len() - 1]));
        lemma_digit_value(s.last());
        let d = digit_value(s.last());
        let v = digits_value(s);
        assert(0 <= d < 10);
        assert(v == vp * 10 + d);
        assert(v / 10 == vp && v % 10 == d) by (nonlinear_arith)
            requires
                v == vp * 10 + d,
                0 <= d < 10,
                vp >= 1,
        ;
        assert(digit_char(d) == s.last());
        assert(nat_text(v) =~= p.push(s.last()));
        assert(p.push(s.last()) =~= s);
    }
}

proof fn lemma_digits_value_prefix(s: Seq<char>, m: int)
    requires
        0 <= m <= s.len(),
        all_digits(s),
    ensures
        digits_value(s.take(m)) <= digits_value(s),
    decreases s.len() - m,
{
    if m < s.len() {
        lemma_digits_value_prefix(s.drop_last(), m);
        assert(s.drop_last().take(m) =~= s.take(m));
    } else {
        assert(s.take(m) =~= s);
    }
}

fn nat_digits(n: u64) -> (r: Vec<char>)
    ensures
        r@ == nat_text(n as nat),
    decreases n,
{
    if n < 10 {
        let mut v: Vec<char> = Vec::new();
        v.push(digit_of(n));
        assert(v@ =~= nat_text(n as nat));
        v
    } else {
        let mut v = nat_digits(n / 10);
        v.push(digit_of(n % 10));
        v
    }
}

/// The decimal text of a non-negative integer.
pub fn u64_text(n: u64) -> (r: String)
    ensures
        r@ == nat_text(n as nat),
{
    let v = nat_digits(n);
    string_of(&v)
}

/// The decimal text of an integer.
pub fn i64_text(i: i64) -> (r: String)
    ensures
        r@ == int_text(i as int),
{
    if i < 0 {
        let m: u64 = if i == i64::MIN {
            9223372036854775808u64
        } else {
            (-i) as u64
        };
        let mut v: Vec<char> = Vec::new();
        v.push('-');
        let d = nat_digits(m);
        let mut k: usize = 0;
        while k < d.len()
            invariant
                v@ == seq!['-'] + d@.take(k as int),
                k <= d.len(),
            decreases d.len() - k,
        {
            v.push(d[k]);
            assert(d@.take(k as int).push(d@[k as int]) =~= d@.take(k + 1));
            assert((seq!['-'] + d@.take(k as int)).push(d@[k as int]) =~= seq!['-'] + d@.take(
                k + 1,
            ));
            k = k + 1;
        }
        assert(d@.take(d.len() as int) =~= d@);
        string_of(&v)
    } else {
        u64_text(i as u64)
    }
}

/// The integer whose decimal text (as `to_string` writes it) is exactly `t`.
pub fn parse_canonical_int(t: &Vec<char>) -> (r: Option<i64>)
    ensures
        match r {
            Some(i) => int_text(i as int) == t@,
            None => forall|i: int| i64::MIN <= i <= i64::MAX ==> int_text(i) != t@,
        },
{
    proof {
        assert forall|i: int| i64::MIN <= i <= i64::MAX implies (#[trigger] int_text(i)).len() > 0
            && (i < 0 <==> int_text(i)[0] == '-') && (i < 0 ==> int_text(i).drop_first()
            == nat_text((-i) as nat)) && (i >= 0 ==> int_text(i) == nat_text(i as nat)) by {
            if i < 0 {
                lemma_nat_text((-i) as nat);
                assert((seq!['-'] + nat_text((-i) as nat)).drop_first() =~= nat_text(
                    (-i) as nat,
                ));
            } else {
                lemma_nat_text(i as nat);
                assert(is_digit(nat_text(i as nat)[0]));
            }
        }
    }
    let n = t.len();
    if n == 0 {
        return None;
    }
    let neg = t[0] == '-';
    let start: usize = if neg {
        1
    } else {
        0
    };
    let ghost digits = t@.skip(start as int);
    proof {
        assert forall|i: int| i64::MIN <= i <= i64::MAX && int_text(i) == t@ implies
            canonical_digits(digits) && digits_value(digits) == (if neg {
            -i
        } else {
            i
        }) && (neg ==> digits[0] != '0') by {
            if i < 0 {
                assert(digits =~= t@.drop_first());
                lemma_nat_text((-i) as nat);
            } else {
                assert(digits =~= t@);
                lemma_nat_text(i as nat);
            }
        }
    }
    if start >= n {
        return None;
    }
    if t[start] == '0' && (neg || n - start > 1) {
        return None;
    }
    let limit: u64 = if neg {
        9223372036854775808u64
    } else {
        9223372036854775807u64
    };
    let mut v: u64 = 0;
    let mut k: usize = start;
    while k < n
        invariant
            n == t.len(),
            start <= k <= n,
            start == (if neg { 1usize } else { 0usize }),
            digits == t@.skip(start as int),
            v <= limit,
            limit == (if neg { 9223372036854775808u64 } else { 9223372036854775807u64 }),
            all_digits(t@.subrange(start as int, k as int)),
            v == digits_value(t@.subrange(start as int, k as int)),
            forall|i: int|
                i64::MIN <= i <= i64::MAX && int_text(i) == t@ ==> canonical_digits(digits)
                    && digits_value(digits) == (if neg {
                    -i
                } else {
                    i
                }),
        decreases n - k,
    {
        let c = t[k];
        let u = c as u32;
        if u < 48 || u > 57 {
            proof {
                assert(digits[k - start] == c);
            }
            return None;
        }
        let d: u64 = (u - 48) as u64;
        let ghost next = t@.subrange(start as int, k + 1);
        proof {
            assert(next.drop_last() =~= t@.subrange(start as int, k as int));
            assert(next.last() == c);
        }
        if v > (limit - d) / 10 {
            proof {
                assert(v * 10 + d > limit) by (nonlinear_arith)
                    requires
                        v > (limit - d) / 10,
                        d <= 9,
                        limit >= 9,
                ;
                assert(digits_value(next) == v * 10 + d);
                assert forall|i: int| i64::MIN <= i <= i64::MAX implies int_text(i) != t@ by {
                    if int_text(i) == t@ {
                        assert(digits.take(k + 1 - start) =~= next);
                        lemma_digits_value_prefix(digits, k + 1 - start);
                    }
                }
            }
            return None;
        }
        proof {
            assert(v * 10 + d <= limit) by (nonlinear_arith)
                requires
                    v <= (limit - d) / 10,
                    d <= 9,
                    limit >= 9,
            ;
        }
        v = v * 10 + d;
        k = k + 1;
    }
    proof {
        assert(t@.subrange(start as int, n as int) =~= digits);
        assert(canonical_digits(digits));
        lemma_canonical_digits(digits);
    }
    if neg {
        proof {
            lemma_digits_positive(digits);
            assert(t@ =~= seq!['-'] + digits);
        }
        if v == 9223372036854775808u64 {
            Some(i64::MIN)
        } else {
            Some(-(v as i64))
        }
    } else {
        proof {
            assert(t@ =~= digits);
        }
        Some(v as i64)
    }
}

} // verus!

verus! {

pub open spec fn is_sign(c: char) -> bool {
    c == '+' || c == '-'
}

/// `t` without one leading sign.
pub open spec fn unsigned_part(t: Seq<char>) -> Seq<char> {
    if t.len() > 0 && is_sign(t[0]) {
        t.drop_first()
    } else {
        t
    }
}

pub open spec fn ascii_lower(c: char) -> char {
    if 65 <= (c as u32) <= 90 {
        ((c as u32) + 32) as char
    } else {
        c
    }
}

/// The words std's float grammar reads as infinity or NaN, compared without case.
pub open spec fn is_special_word(b: Seq<char>) -> bool {
    let l = b.map_values(|c: char| ascii_lower(c));
    ||| l == seq!['i', 'n', 'f']
    ||| l == seq!['i', 'n', 'f', 'i', 'n', 'i', 't', 'y']
    ||| l == seq!['n', 'a', 'n']
}

/// The texts std's `f64::from_str` reads as infinity or NaN: one of those words, with an
/// optional sign.
pub open spec fn special_float_text(t: Seq<char>) -> bool {
    is_special_word(unsigned_part(t))
}

/// `Digit+ | Digit+ '.' Digit* | Digit* '.' Digit+`
pub open spec fn mantissa_ok(m: Seq<char>) -> bool {
    ||| m.len() > 0 && all_digits(m)
    ||| m.len() >= 2 && exists|p: int|
        0 <= p < m.len() && m[p] == '.' && all_digits(m.take(p)) && all_digits(m.skip(p + 1))
}

pub open spec fn is_exp_mark(c: char) -> bool {
    c == 'e' || c == 'E'
}

/// `Sign? Digit+`
pub open spec fn exponent_ok(e: Seq<char>) -> bool {
    let d = unsigned_part(e);
    d.len() > 0 && all_digits(d)
}

/// `Mantissa Exp?` where `Exp ::= ('e' | 'E') Sign? Digit+`
pub open spec fn number_ok(b: Seq<char>) -> bool {
    ||| mantissa_ok(b)
    ||| exists|j: int|
        0 <= j < b.len() && is_exp_mark(b[j]) && mantissa_ok(b.take(j)) && exponent_ok(
            b.skip(j + 1),
        )
}

/// The texts that std's `f64::from_str` reads as a number written in digits, by the
/// grammar that its documentation gives; the words it also reads are `special_float_text`.
pub open spec fn float_text(t: Seq<char>) -> bool {
    number_ok(unsigned_part(t))
}

pub proof fn lemma_mantissa_chars(m: Seq<char>)
    requires
        mantissa_ok(m),
    ensures
        forall|i: int| 0 <= i < m.len() ==> is_digit(m[i]) || m[i] == '.',
{
    if !(m.len() > 0 && all_digits(m)) {
        let p = choose|p: int|
            0 <= p < m.len() && m[p] == '.' && all_digits(m.take(p)) && all_digits(
                m.skip(p + 1),
            );
        assert forall|i: int| 0 <= i < m.len() implies is_digit(m[i]) || m[i] == '.' by {
            if i < p {
                assert(m.take(p)[i] == m[i]);
            } else if i > p {
                assert(m.skip(p + 1)[i - p - 1] == m[i]);
            }
        }
    }
}

fn is_digit_char(c: char) -> (r: bool)
    ensures
        r == is_digit(c),
{
    let u = c as u32;
    48 <= u && u <= 57
}

/// Whether `t[lo..hi]` is a mantissa.
fn mantissa_at(t: &Vec<char>, lo: usize, hi: usize) -> (r: bool)
    requires
        lo <= hi <= t.len(),
    ensures
        r == mantissa_ok(t@.subrange(lo as int, hi as int)),
{
    let ghost m = t@.subrange(lo as int, hi as int);
    let mut dots: usize = 0;
    let mut dot: usize = lo;
    let mut k: usize = lo;
    while k < hi
        invariant
            lo <= k <= hi <= t.len(),
            m == t@.subrange(lo as int, hi as int),
            dots <= 1,
            forall|i: int| lo <= i < k ==> is_digit(t@[i]) || t@[i] == '.',
            dots == 0 ==> forall|i: int| lo <= i < k ==> is_digit(t@[i]),
            dots == 1 ==> lo <= dot < k && t@[dot as int] == '.' && (forall|i: int|
                lo <= i < k && i != dot ==> is_digit(t@[i])),
        decreases hi - k,
    {
        let c = t[k];
        if c == '.' {
            if dots == 1 {
                proof {
                    assert(m[dot - lo] == '.' && m[k - lo] == '.');
                    assert(!(m.len() > 0 && all_digits(m)));
                    assert forall|p: int|
                        0 <= p < m.len() && m[p] == '.' implies !(all_digits(m.take(p))
                        && all_digits(m.skip(p + 1))) by {
                        if p < dot - lo {
                            assert(m.skip(p + 1)[dot - lo - p - 1] == m[dot - lo]);
                        } else if p > dot - lo {
                            assert(m.take(p)[dot - lo] == m[dot - lo]);
                        } else {
                            assert(m.skip(p + 1)[k - lo - p - 1] == m[k - lo]);
                        }
                    }
                }
                return false;
            }
            dots = 1;
            dot = k;
        } else if !is_digit_char(c) {
            proof {
                assert(m[k - lo] == c);
                if mantissa_ok(m) {
                    lemma_mantissa_chars(m);
                }
            }
            return false;
        }
        k = k + 1;
    }
    if hi == lo {
        return false;
    }
    if dots == 0 {
        proof {
            assert forall|i: int| 0 <= i < m.len() implies is_digit(#[trigger] m[i]) by {
                assert(m[i] == t@[lo + i]);
            }
        }
        true
    } else {
        proof {
            let p = dot - lo;
            assert(m[p] == '.');
            assert(!is_digit(m[p]));
            assert forall|i: int| 0 <= i < p implies is_digit(#[trigger] m.take(p)[i]) by {
                assert(m.take(p)[i] == t@[lo + i]);
            }
            assert forall|i: int| 0 <= i < m.len() - p - 1 implies is_digit(
                #[trigger] m.skip(p + 1)[i],
            ) by {
                assert(m.skip(p + 1)[i] == t@[lo + p + 1 + i]);
            }
        }
        hi - lo >= 2
    }
}

/// Whether `t[lo..hi]` is an exponent's digits with an optional sign.
fn exponent_at(t: &Vec<char>, lo: usize, hi: usize) -> (r: bool)
    requires
        lo <= hi <= t.len(),
    ensures
        r == exponent_ok(t@.subrange(lo as int, hi as int)),
{
    let ghost e = t@.subrange(lo as int, hi as int);
    let mut k = lo;
    if k < hi && (t[k] == '+' || t[k] == '-') {
        k = k + 1;
    }
    proof {
        assert(unsigned_part(e) =~= t@.subrange(k as int, hi as int));
    }
    if k == hi {
        return false;
    }
    let start = k;
    while k < hi
        invariant
            lo <= start <= k <= hi <= t.len(),
            forall|i: int| start <= i < k ==> is_digit(t@[i]),
            e == t@.subrange(lo as int, hi as int),
            unsigned_part(e) == t@.subrange(start as int, hi as int),
        decreases hi - k,
    {
        if !is_digit_char(t[k]) {
            proof {
                assert(t@.subrange(start as int, hi as int)[k - start] == t@[k as int]);
            }
            return false;
        }
        k = k + 1;
    }
    proof {
        let d = t@.subrange(start as int, hi as int);
        assert forall|i: int| 0 <= i < d.len() implies is_digit(#[trigger] d[i]) by {
            assert(d[i] == t@[start + i]);
        }
    }
    true
}

pub fn ascii_lower_char(c: char) -> (r: char)
    ensures
        r == ascii_lower(c),
{
    let u = c as u32;
    if 65 <= u && u <= 90 {
        ((u + 32) as u8) as char
    } else {
        c
    }
}


/// Whether `t[lo..]`, compared without case, is the word `w`.
fn word_at(t: &Vec<char>, lo: usize, w: &[char]) -> (r: bool)
    requires
        lo <= t.len(),
    ensures
        r == (t@.skip(lo as int).map_values(|c: char| ascii_lower(c)) == w@),
{
    let ghost l = t@.skip(lo as int).map_values(|c: char| ascii_lower(c));
    if t.len() - lo != w.len() {
        return false;
    }
    let mut k: usize = 0;
    while k < w.len()
        invariant
            lo <= t.len(),
            t.len() - lo == w.len(),
            k <= w.len(),
            l == t@.skip(lo as int).map_values(|c: char| ascii_lower(c)),
            forall|i: int| 0 <= i < k ==> l[i] == w@[i],
        decreases w.len() - k,
    {
        if ascii_lower_char(t[lo + k]) != w[k] {
            assert(l[k as int] == ascii_lower(t@[lo + k]));
            return false;
        }
        k = k + 1;
    }
    assert(l =~= w@);
    true
}

/// Whether `t` is a word that std's `f64::from_str` reads as infinity or NaN.
pub fn is_special_float_text(t: &Vec<char>) -> (r: bool)
    ensures
        r == special_float_text(t@),
{
    let n = t.len();
    let start: usize = if n > 0 && (t[0] == '+' || t[0] == '-') {
        1
    } else {
        0
    };
    proof {
        assert(unsigned_part(t@) =~= t@.skip(start as int));
    }
    let inf = ['i', 'n', 'f'];
    let infinity = ['i', 'n', 'f', 'i', 'n', 'i', 't', 'y'];
    let nan = ['n', 'a', 'n'];
    proof {
        assert(inf@ =~= seq!['i', 'n', 'f']);
        assert(infinity@ =~= seq!['i', 'n', 'f', 'i', 'n', 'i', 't', 'y']);
        assert(nan@ =~= seq!['n', 'a', 'n']);
    }
    word_at(t, start, &inf) || word_at(t, start, &infinity) || word_at(t, start, &nan)
}

/// Whether `t` is a number written in digits by std's float grammar.
pub fn is_float_text(t: &Vec<char>) -> (r: bool)
    ensures
        r == float_text(t@),
{
    let n = t.len();
    let start: usize = if n > 0 && (t[0] == '+' || t[0] == '-') {
        1
    } else {
        0
    };
    let ghost b = unsigned_part(t@);
    proof {
        assert(b =~= t@.skip(start as int));
        assert(t@.subrange(start as int, n as int) =~= b);
    }
    let mut j: usize = start;
    while j < n && !(t[j] == 'e' || t[j] == 'E')
        invariant
            start <= j <= n,
            n == t.len(),
            forall|i: int| start <= i < j ==> !is_exp_mark(t@[i]),
        decreases n - j,
    {
        j = j + 1;
    }
    if j == n {
        proof {
            assert forall|q: int| 0 <= q < b.len() implies !is_exp_mark(b[q]) by {
                assert(b[q] == t@[start + q]);
            }
        }
        mantissa_at(t, start, n)
    } else {
        let jj = j - start;
        proof {
            assert(b[jj as int] == t@[j as int]);
            assert(t@.subrange(start as int, j as int) =~= b.take(jj as int));
            assert(t@.subrange(j + 1, n as int) =~= b.skip(jj + 1));
            if mantissa_ok(b) {
                lemma_mantissa_chars(b);
            }
            assert forall|q: int|
                0 <= q < b.len() && is_exp_mark(b[q]) && q != jj implies !mantissa_ok(b.take(q)) by {
                assert(b[q] == t@[start + q]);
                if mantissa_ok(b.take(q)) {
                    lemma_mantissa_chars(b.take(q));
                    assert(b.take(q)[jj as int] == b[jj as int]);
                }
            }
        }
        mantissa_at(t, start, j) && exponent_at(t, j + 1, n)
    }
}

} // verus!

verus! {

/// The pieces of `s` between commas, as std's `str::split(',')` yields them.
pub open spec fn comma_pieces(s: Seq<char>) -> Seq<Seq<char>>
    decreases s.len(),
{
    if s.len() == 0 {
        seq![Seq::empty()]
    } else {
        let p = comma_pieces(s.drop_last());
        if s.last() == ',' {
            p.push(Seq::empty())
        } else {
            p.update(p.len() - 1, p.last().push(s.last()))
        }
    }
}

/// The pieces trimmed, those left empty dropped.
pub open spec fn nonempty_trimmed(ps: Seq<Seq<char>>) -> Seq<Seq<char>>
    decreases ps.len(),
{
    if ps.len() == 0 {
        Seq::empty()
    } else {
        let r = nonempty_trimmed(ps.drop_last());
        let t = trim(ps.last());
        if t.len() > 0 {
            r.push(t)
        } else {
            r
        }
    }
}

/// The items of a comma-separated list: each trimmed, empty ones left out.
pub open spec fn list_items(s: Seq<char>) -> Seq<Seq<char>> {
    nonempty_trimmed(comma_pieces(s))
}

/// `items` joined with `sep` between each two.
pub open spec fn join(items: Seq<Seq<char>>, sep: Seq<char>) -> Seq<char>
    decreases items.len(),
{
    if items.len() == 0 {
        Seq::empty()
    } else if items.len() == 1 {
        items[0]
    } else {
        join(items.drop_last(), sep) + sep + items.last()
    }
}

/// The views of a list of strings.
pub open spec fn texts_view(v: Seq<String>) -> Seq<Seq<char>> {
    v.map_values(|x: String| x@)
}

proof fn lemma_comma_pieces_len(s: Seq<char>)
    ensures
        comma_pieces(s).len() >= 1,
    decreases s.len(),
{
    if s.len() > 0 {
        lemma_comma_pieces_len(s.drop_last());
    }
}

proof fn lemma_nonempty_trimmed_push(ps: Seq<Seq<char>>, x: Seq<char>)
    ensures
        nonempty_trimmed(ps.push(x)) == (if trim(x).len() > 0 {
            nonempty_trimmed(ps).push(trim(x))
        } else {
            nonempty_trimmed(ps)
        }),
{
    assert(ps.push(x).drop_last() =~= ps);
}

/// A list item that a join and a split give back: non-empty, no white space at either end, no comma.
pub open spec fn clean_item(t: Seq<char>) -> bool {
    &&& t.len() > 0
    &&& !is_ws(t[0])
    &&& !is_ws(t.last())
    &&& forall|i: int| 0 <= i < t.len() ==> t[i] != ','
}

proof fn lemma_comma_pieces_extend(x: Seq<char>, t: Seq<char>)
    requires
        forall|i: int| 0 <= i < t.len() ==> t[i] != ',',
    ensures
        comma_pieces(x + t) == comma_pieces(x).update(
            comma_pieces(x).len() - 1,
            comma_pieces(x).last() + t,
        ),
    decreases t.len(),
{
    lemma_comma_pieces_len(x);
    let p = comma_pieces(x);
    if t.len() == 0 {
        assert(x + t =~= x);
        assert(p.last() + t =~= p.last());
        assert(p.update(p.len() - 1, p.last()) =~= p);
    } else {
        let t0 = t.drop_last();
        lemma_comma_pieces_extend(x, t0);
        assert((x + t).drop_last() =~= x + t0);
        assert((x + t).last() == t.last());
        let q = comma_pieces(x + t0);
        assert(q.last() == p.last() + t0);
        assert((p.last() + t0).push(t.last()) =~= p.last() + t);
        assert(q.update(q.len() - 1, q.last().push(t.last())) =~= p.update(
            p.len() - 1,
            p.last() + t,
        ));
    }
}

proof fn lemma_comma_pieces_join(items: Seq<Seq<char>>)
    requires
        items.len() >= 2,
        forall|i: int| 0 <= i < items.len() ==> clean_item(#[trigger] items[i]),
    ensures
        comma_pieces(join(items, seq![',', ' '])) == comma_pieces(
            join(items.drop_last(), seq![',', ' ']),
        ).push(seq![' '] + items.last()),
{
    let jn = join(items.drop_last(), seq![',', ' ']);
    let head = jn + seq![','];
    let tail = seq![' '] + items.last();
    assert(join(items, seq![',', ' ']) =~= head + tail);
    assert(head.drop_last() =~= jn);
    assert(head.last() == ',');
    lemma_comma_pieces_len(jn);
    assert forall|i: int| 0 <= i < tail.len() implies tail[i] != ',' by {
        if i > 0 {
            assert(tail[i] == items.last()[i - 1]);
        }
    }
    lemma_comma_pieces_extend(head, tail);
    let p = comma_pieces(jn);
    assert(comma_pieces(head) == p.push(Seq::empty()));
    assert(Seq::<char>::empty() + tail =~= tail);
    assert(p.push(Seq::empty()).update(p.len() as int, tail) =~= p.push(tail));
}

/// Splitting joined items at the commas and trimming gives the items back, when each is clean.
pub proof fn law_list_items_of_join(items: Seq<Seq<char>>)
    requires
        forall|i: int| 0 <= i < items.len() ==> clean_item(#[trigger] items[i]),
    ensures
        list_items(join(items, seq![',', ' '])) == items,
    decreases items.len(),
{
    if items.len() == 0 {
        let e = Seq::<char>::empty();
        assert(trim(e) =~= e);
        assert(seq![e].drop_last() =~= Seq::<Seq<char>>::empty());
        assert(nonempty_trimmed(seq![e]) == nonempty_trimmed(Seq::<Seq<char>>::empty()));
        assert(nonempty_trimmed(seq![e]) =~= items);
    } else if items.len() == 1 {
        let t = items[0];
        assert(join(items, seq![',', ' ']) == t);
        lemma_comma_pieces_extend(Seq::empty(), t);
        assert(Seq::<char>::empty() + t =~= t);
        let e = Seq::<char>::empty();
        assert(comma_pieces(e) == seq![e]);
        assert(seq![e].update(0, e + t) =~= seq![t]);
        lemma_trim_plain(t);
        lemma_nonempty_trimmed_push(Seq::empty(), t);
        assert(Seq::<Seq<char>>::empty().push(t) =~= seq![t]);
        assert(Seq::<Seq<char>>::empty().push(t) =~= items);
    } else {
        let init = items.drop_last();
        law_list_items_of_join(init);
        lemma_comma_pieces_join(items);
        let x = seq![' '] + items.last();
        lemma_nonempty_trimmed_push(comma_pieces(join(init, seq![',', ' '])), x);
        let t = items.last();
        assert(x.drop_first() =~= t);
        assert(trim_start(x) == trim_start(t));
        lemma_trim_plain(t);
        assert(trim_start(t) == t);
        assert(trim(x) == t);
        assert(init.push(t) =~= items);
    }
}

/// The items of the comma-separated list `s`, trimmed, empty ones left out.
pub fn comma_items(s: &str) -> (r: Vec<String>)
    ensures
        texts_view(r@) == list_items(s@),
{
    let cs = chars_of(s);
    let n = cs.len();
    let mut out: Vec<String> = Vec::new();
    let mut cur: Vec<char> = Vec::new();
    let ghost mut done: Seq<Seq<char>> = Seq::empty();
    let mut k: usize = 0;
    proof {
        assert(cs@.take(0) =~= Seq::<char>::empty());
        assert(done.push(cur@) =~= seq![Seq::<char>::empty()]);
    }
    while k < n
        invariant
            n == cs.len(),
            k <= n,
            comma_pieces(cs@.take(k as int)) == done.push(cur@),
            texts_view(out@) == nonempty_trimmed(done),
        decreases n - k,
    {
        let c = cs[k];
        proof {
            assert(cs@.take(k + 1).drop_last() =~= cs@.take(k as int));
            assert(cs@.take(k + 1).last() == c);
        }
        if c == ',' {
            let t = trim_chars(&cur);
            proof {
                lemma_nonempty_trimmed_push(done, cur@);
            }
            if t.len() > 0 {
                let ts = string_of(&t);
                out.push(ts);
                proof {
                    assert(texts_view(out@) =~= nonempty_trimmed(done).push(trim(cur@)));
                }
            }
            proof {
                done = done.push(cur@);
            }
            cur = Vec::new();
            proof {
                assert(done.push(cur@) =~= comma_pieces(cs@.take(k + 1)));
            }
        } else {
            cur.push(c);
            proof {
                let p = comma_pieces(cs@.take(k as int));
                assert(p.update(p.len() - 1, p.last().push(c)) =~= done.push(cur@));
            }
        }
        k = k + 1;
    }
    let t = trim_chars(&cur);
    proof {
        lemma_nonempty_trimmed_push(done, cur@);
        assert(cs@.take(n as int) =~= cs@);
    }
    if t.len() > 0 {
        let ts = string_of(&t);
        out.push(ts);
        proof {
            assert(texts_view(out@) =~= nonempty_trimmed(done).push(trim(cur@)));
        }
    }
    out
}

/// The strings of `items` joined with `sep` between each two.
pub fn join_texts(items: &Vec<String>, sep: &str) -> (r: String)
    ensures
        r@ == join(texts_view(items@), sep@),
{
    let mut out: Vec<char> = Vec::new();
    let sep_chars = chars_of(sep);
    let n = items.len();
    let mut k: usize = 0;
    while k < n
        invariant
            n == items.len(),
            k <= n,
            sep_chars@ == sep@,
            out@ == join(texts_view(items@.take(k as int)), sep@),
        decreases n - k,
    {
        let piece = chars_of(items[k].as_str());
        let ghost before = out@;
        if k > 0 {
            let mut j: usize = 0;
            while j < sep_chars.len()
                invariant
                    j <= sep_chars.len(),
                    out@ == before + sep_chars@.take(j as int),
                decreases sep_chars.len() - j,
            {
                out.push(sep_chars[j]);
                assert(sep_chars@.take(j as int).push(sep_chars@[j as int]) =~= sep_chars@.take(
                    j + 1,
                ));
                assert((before + sep_chars@.take(j as int)).push(sep_chars@[j as int])
                    =~= before + sep_chars@.take(j + 1));
                j = j + 1;
            }
            assert(sep_chars@.take(sep_chars.len() as int) =~= sep_chars@);
        }
        let ghost mid = out@;
        let mut j: usize = 0;
        while j < piece.len()
            invariant
                j <= piece.len(),
                out@ == mid + piece@.take(j as int),
            decreases piece.len() - j,
        {
            out.push(piece[j]);
            assert(piece@.take(j as int).push(piece@[j as int]) =~= piece@.take(j + 1));
            assert((mid + piece@.take(j as int)).push(piece@[j as int]) =~= mid + piece@.take(
                j + 1,
            ));
            j = j + 1;
        }
        proof {
            assert(piece@.take(piece.len() as int) =~= piece@);
            let tv = texts_view(items@.take(k + 1));
            assert(tv.drop_last() =~= texts_view(items@.take(k as int)));
            assert(tv.last() == items@[k as int]@);
            if k == 0 {
                assert(out@ =~= tv[0]);
            } else {
                assert(out@ =~= join(tv.drop_last(), sep@) + sep@ + tv.last());
            }
        }
        k = k + 1;
    }
    proof {
        assert(items@.take(n as int) =~= items@);
    }
    string_of(&out)
}

/// `needle` occurs in `hay`.
pub open spec fn contains_text(hay: Seq<char>, needle: Seq<char>) -> bool {
    exists|i: int| 0 <= i && i + needle.len() <= hay.len() && #[trigger] hay.subrange(i, i + needle.len()) == needle
}

/// Whether `needle` occurs in `hay`.
pub fn text_contains(hay: &str, needle: &str) -> (r: bool)
    ensures
        r == contains_text(hay@, needle@),
{
    let h = chars_of(hay);
    let nd = chars_of(needle);
    let hn = h.len();
    let nn = nd.len();
    if nn > hn {
        return false;
    }
    let mut i: usize = 0;
    while i <= hn - nn
        invariant
            hn == h.len(),
            nn == nd.len(),
            nn <= hn,
            h@ == hay@,
            nd@ == needle@,
            forall|q: int| 0 <= q < i ==> #[trigger] h@.subrange(q, q + nn) != nd@,
        decreases hn - nn + 1 - i,
    {
        let mut j: usize = 0;
        while j < nn && h[i + j] == nd[j]
            invariant
                hn == h.len(),
                nn == nd.len(),
                i + nn <= hn,
                j <= nn,
                forall|q: int| 0 <= q < j ==> h@[i + q] == nd@[q],
            decreases nn - j,
        {
            j = j + 1;
        }
        if j == nn {
            assert(h@.subrange(i as int, i + nn) =~= nd@);
            return true;
        }
        assert(h@.subrange(i as int, i + nn)[j as int] != nd@[j as int]);
        i = i + 1;
    }
    false
}

/// Unicode lowercase of `s`, as std's `str::to_lowercase` gives it.
pub uninterp spec fn lowercase(s: Seq<char>) -> Seq<char>;

/// std's `str::to_lowercase`; its result is named `lowercase` of the argument.
#[verifier::external_body]
pub(crate) fn to_lower(s: &str) -> (r: String)
    ensures
        r@ == lowercase(s@),
{
    s.to_lowercase()
}

} // verus!

verus! {

/// `a` comes before `b` in the order of std's `String`: character by character by
/// code point, a proper prefix first.
pub open spec fn text_lt(a: Seq<char>, b: Seq<char>) -> bool
    decreases a.len(),
{
    if a.len() == 0 {
        b.len() > 0
    } else if b.len() == 0 {
        false
    } else if a[0] != b[0] {
        a[0] < b[0]
    } else {
        text_lt(a.drop_first(), b.drop_first())
    }
}

/// Each text comes strictly before the next.
pub open spec fn strictly_sorted(s: Seq<Seq<char>>) -> bool {
    forall|i: int, j: int| 0 <= i < j < s.len() ==> text_lt(#[trigger] s[i], #[trigger] s[j])
}

pub proof fn lemma_text_lt_irreflexive(a: Seq<char>)
    ensures
        !text_lt(a, a),
    decreases a.len(),
{
    if a.len() > 0 {
        lemma_text_lt_irreflexive(a.drop_first());
    }
}

pub proof fn lemma_text_lt_transitive(a: Seq<char>, b: Seq<char>, c: Seq<char>)
    requires
        text_lt(a, b),
        text_lt(b, c),
    ensures
        text_lt(a, c),
    decreases a.len(),
{
    if a.len() > 0 && b.len() > 0 && c.len() > 0 && a[0] == b[0] && b[0] == c[0] {
        lemma_text_lt_transitive(a.drop_first(), b.drop_first(), c.drop_first());
    }
}

pub proof fn lemma_text_lt_total(a: Seq<char>, b: Seq<char>)
    requires
        a != b,
    ensures
        text_lt(a, b) || text_lt(b, a),
    decreases a.len(),
{
    if a.len() > 0 && b.len() > 0 && a[0] == b[0] {
        if a.drop_first() =~= b.drop_first() {
            assert forall|i: int| 0 <= i < a.len() implies a[i] == b[i] by {
                if i > 0 {
                    assert(a[i] == a.drop_first()[i - 1]);
                    assert(b[i] == b.drop_first()[i - 1]);
                }
            }
            assert(a =~= b);
        }
        lemma_text_lt_total(a.drop_first(), b.drop_first());
    } else if a.len() == 0 && b.len() == 0 {
        assert(a =~= b);
    }
}

/// Whether `a` comes before `b` in the order of std's `String`.
pub fn text_less(a: &str, b: &str) -> (r: bool)
    ensures
        r == text_lt(a@, b@),
{
    let x = chars_of(a);
    let y = chars_of(b);
    let xn = x.len();
    let yn = y.len();
    let mut i: usize = 0;
    assert(a@.skip(0) =~= a@);
    assert(b@.skip(0) =~= b@);
    while i < xn && i < yn && x[i] == y[i]
        invariant
            xn == x.len(),
            yn == y.len(),
            x@ == a@,
            y@ == b@,
            i <= xn,
            i <= yn,
            text_lt(a@, b@) == text_lt(a@.skip(i as int), b@.skip(i as int)),
        decreases xn - i,
    {
        assert(a@.skip(i as int).drop_first() =~= a@.skip(i + 1));
        assert(b@.skip(i as int).drop_first() =~= b@.skip(i + 1));
        i = i + 1;
    }
    if i == xn {
        i < yn
    } else if i == yn {
        false
    } else {
        assert(a@.skip(i as int)[0] == x@[i as int]);
        assert(b@.skip(i as int)[0] == y@[i as int]);
        x[i] < y[i]
    }
}


proof fn lemma_insert_sorted(s: Seq<Seq<char>>, p: int, c: Seq<char>)
    requires
        strictly_sorted(s),
        0 <= p <= s.len(),
        forall|q: int| 0 <= q < p ==> text_lt(#[trigger] s[q], c),
        p < s.len() ==> text_lt(c, s[p]),
    ensures
        strictly_sorted(s.insert(p, c)),
{
    assert forall|q: int| p <= q < s.len() implies text_lt(c, #[trigger] s[q]) by {
        if q > p {
            lemma_text_lt_transitive(c, s[p], s[q]);
        }
    }
    let t = s.insert(p, c);
    assert forall|i: int, j: int| 0 <= i < j < t.len() implies text_lt(#[trigger] t[i], #[trigger] t[j]) by {
        if j < p {
            assert(t[i] == s[i] && t[j] == s[j]);
        } else if j == p {
            assert(t[i] == s[i]);
        } else if i < p {
            assert(t[i] == s[i] && t[j] == s[j - 1]);
            lemma_text_lt_transitive(s[i], c, s[j - 1]);
        } else if i == p {
            assert(t[j] == s[j - 1]);
        } else {
            assert(t[i] == s[i - 1] && t[j] == s[j - 1]);
        }
    }
}

/// The texts of `items` in the order of std's `String`, each once: what sorting
/// them and then dropping repeats gives.
pub fn sorted_unique(items: &Vec<String>) -> (r: Vec<String>)
    ensures
        strictly_sorted(texts_view(r@)),
        forall|t: Seq<char>| texts_view(r@).contains(t) <==> texts_view(items@).contains(t),
{
    let mut out: Vec<String> = Vec::new();
    let n = items.len();
    let mut k: usize = 0;
    while k < n
        invariant
            n == items.len(),
            k <= n,
            strictly_sorted(texts_view(out@)),
            forall|t: Seq<char>|
                texts_view(out@).contains(t) <==> texts_view(items@.take(k as int)).contains(t),
        decreases n - k,
    {
        let c = &items[k];
        let ghost before = texts_view(out@);
        assert(forall|t: Seq<char>| before.contains(t) <==> texts_view(items@.take(k as int)).contains(t));
        let m = out.len();
        let mut p: usize = 0;
        while p < m && text_less(out[p].as_str(), c.as_str())
            invariant
                m == out.len(),
                p <= m,
                before == texts_view(out@),
                forall|q: int| 0 <= q < p ==> text_lt(#[trigger] before[q], c@),
            decreases m - p,
        {
            p = p + 1;
        }
        assert(texts_view(items@.take(k + 1)) =~= texts_view(items@.take(k as int)).push(c@));
        let ghost seen = texts_view(items@.take(k as int));
        assert forall|t: Seq<char>| #[trigger] seen.push(c@).contains(t) <==> (seen.contains(t) || t == c@) by {
            if t == c@ {
                assert(seen.push(c@)[seen.len() as int] == t);
            }
            if seen.contains(t) {
                let q = choose|q: int| 0 <= q < seen.len() && seen[q] == t;
                assert(seen.push(c@)[q] == t);
            }
        }
        if p < m && same_text(out[p].as_str(), c.as_str()) {
            assert(before[p as int] == c@);
            assert forall|t: Seq<char>| texts_view(out@).contains(t) <==> (before.contains(t) || t == c@) by {
                if t == c@ {
                    assert(before[p as int] == t);
                }
            }
        } else {
            proof {
                if p < m {
                    lemma_text_lt_total(before[p as int], c@);
                }
                lemma_insert_sorted(before, p as int, c@);
            }
            out.insert(p, c.clone());
            assert(texts_view(out@) =~= before.insert(p as int, c@));
            assert forall|t: Seq<char>| texts_view(out@).contains(t) <==> (before.contains(t) || t == c@) by {
                let now = texts_view(out@);
                if before.contains(t) {
                    let q = choose|q: int| 0 <= q < before.len() && before[q] == t;
                    if q < p {
                        assert(now[q] == t);
                    } else {
                        assert(now[q + 1] == t);
                    }
                }
                if t == c@ {
                    assert(now[p as int] == t);
                }
                if now.contains(t) {
                    let q = choose|q: int| 0 <= q < now.len() && now[q] == t;
                    if q < p {
                        assert(before[q] == t);
                    } else if q > p {
                        assert(before[q - 1] == t);
                    }
                }
            }
        }
        assert forall|t: Seq<char>| texts_view(out@).contains(t) <==> seen.push(c@).contains(t) by {
            assert(before.contains(t) <==> seen.contains(t));
            assert(seen.push(c@).contains(t) <==> (seen.contains(t) || t == c@));
        }
        k = k + 1;
    }
    assert(items@.take(n as int) =~= items@);
    out
}

} // verus!

