use vstd::prelude::*;

use crate::error::Error;
use crate::error::ErrorSource;
use crate::config::IpVersion;

verus! {

// ---------------------------------------------------------------------------
// Canonical addresses
//
// A canonical address is held as plain integers: four octets for the
// dotted-decimal form, eight 16-bit groups for the colon-hex form.
// ---------------------------------------------------------------------------

#[derive(Clone, Copy, Debug, PartialEq, Eq, Hash, Structural)]
pub struct V4Addr {
    pub o0: u8,
    pub o1: u8,
    pub o2: u8,
    pub o3: u8,
}

#[derive(Clone, Copy, Debug, PartialEq, Eq, Hash, Structural)]
pub struct V6Addr {
    pub g0: u16,
    pub g1: u16,
    pub g2: u16,
    pub g3: u16,
    pub g4: u16,
    pub g5: u16,
    pub g6: u16,
    pub g7: u16,
}

#[derive(Clone, Copy, Debug, PartialEq, Eq, Hash, Structural)]
pub enum IpAddress {
    V4(V4Addr),
    V6(V6Addr),
}

// ---------------------------------------------------------------------------
// Decimal digits and numerals
// ---------------------------------------------------------------------------

pub open spec fn is_digit(c: char) -> bool {
    48 <= c as u32 <= 57
}

pub open spec fn digit_val(c: char) -> int {
    c as u32 - 48
}

pub open spec fn dec_digit(n: int) -> char {
    if n == 0 {
        '0'
    } else if n == 1 {
        '1'
    } else if n == 2 {
        '2'
    } else if n == 3 {
        '3'
    } else if n == 4 {
        '4'
    } else if n == 5 {
        '5'
    } else if n == 6 {
        '6'
    } else if n == 7 {
        '7'
    } else if n == 8 {
        '8'
    } else {
        '9'
    }
}

/// The decimal numeral of `n`, without leading zeros.
pub open spec fn dec_str(n: int) -> Seq<char>
    decreases n,
{
    if n < 10 {
        seq![dec_digit(n)]
    } else {
        dec_str(n / 10).push(dec_digit(n % 10))
    }
}

/// The value of a digit string, most significant digit first.
pub open spec fn digits_val(s: Seq<char>) -> int
    decreases s.len(),
{
    if s.len() == 0 {
        0
    } else {
        digits_val(s.drop_last()) * 10 + digit_val(s.last())
    }
}

pub proof fn lemma_digit_roundtrip(c: char)
    requires
        is_digit(c),
    ensures
        dec_digit(digit_val(c)) == c,
        0 <= digit_val(c) <= 9,
{
    let u = c as u32;
    assert(dec_digit(digit_val(c)) as u32 == u);
    assert(dec_digit(digit_val(c)) == c);
}

/// Shape of a decimal numeral: digits only, no leading zero, value recovered.
pub proof fn lemma_dec_str_digits(n: int)
    requires
        0 <= n,
    ensures
        dec_str(n).len() >= 1,
        forall|k: int| 0 <= k < dec_str(n).len() ==> is_digit(#[trigger] dec_str(n)[k]),
        n >= 10 ==> dec_str(n)[0] != '0',
        digits_val(dec_str(n)) == n,
        n < 10 ==> dec_str(n).len() == 1,
        10 <= n < 100 ==> dec_str(n).len() == 2,
        100 <= n < 1000 ==> dec_str(n).len() == 3,
        n >= 1000 ==> dec_str(n).len() >= 4,
    decreases n,
{
    if n < 10 {
        let s = dec_str(n);
        assert(s == seq![dec_digit(n)]);
        assert(s.drop_last() =~= Seq::<char>::empty());
        assert(digits_val(Seq::<char>::empty()) == 0);
        assert(s.last() == dec_digit(n));
        assert(digits_val(s) == digit_val(dec_digit(n)));
    } else {
        lemma_dec_str_digits(n / 10);
        let p = dec_str(n / 10);
        let s = dec_str(n);
        assert(s == p.push(dec_digit(n % 10)));
        assert(s.drop_last() =~= p);
        assert(s.last() == dec_digit(n % 10));
        assert(digits_val(s) == digits_val(p) * 10 + digit_val(dec_digit(n % 10)));
        assert(digit_val(dec_digit(n % 10)) == n % 10);
        assert((n / 10) * 10 + n % 10 == n);
        assert(s[0] == p[0]);
        if n / 10 >= 10 {
        } else {
            assert(p == seq![dec_digit(n / 10)]);
            assert(n / 10 >= 1);
            assert(dec_digit(n / 10) != '0');
        }
        assert(forall|k: int| 0 <= k < s.len() ==> is_digit(#[trigger] s[k])) by {
            assert(forall|k: int| 0 <= k < p.len() ==> is_digit(#[trigger] p[k]));
            assert(s[s.len() - 1] == dec_digit(n % 10));
            assert(is_digit(dec_digit(n % 10)));
            assert(forall|k: int| 0 <= k < s.len() - 1 ==> s[k] == p[k]);
        }
    }
}

/// A digit string without a leading zero is the numeral of its value.
pub proof fn lemma_digits_complete(s: Seq<char>)
    requires
        s.len() >= 1,
        forall|k: int| 0 <= k < s.len() ==> is_digit(#[trigger] s[k]),
        s.len() > 1 ==> s[0] != '0',
    ensures
        0 <= digits_val(s),
        s == dec_str(digits_val(s)),
        s.len() == 1 ==> digits_val(s) < 10,
        s.len() == 2 ==> digits_val(s) < 100,
        s.len() == 3 ==> digits_val(s) < 1000,
    decreases s.len(),
{
    if s.len() == 1 {
        lemma_digit_roundtrip(s[0]);
        assert(s.drop_last() =~= Seq::<char>::empty());
        assert(digits_val(Seq::<char>::empty()) == 0);
        assert(s.last() == s[0]);
        assert(digits_val(s) == digit_val(s[0]));
        assert(dec_str(digits_val(s)) == seq![dec_digit(digit_val(s[0]))]);
        assert(s =~= dec_str(digits_val(s)));
    } else {
        let p = s.drop_last();
        assert(p[0] == s[0]);
        assert(forall|k: int| 0 <= k < p.len() ==> is_digit(#[trigger] p[k])) by {
            assert(forall|k: int| 0 <= k < p.len() ==> p[k] == s[k]);
        }
        lemma_digits_complete(p);
        lemma_digit_roundtrip(s.last());
        let v = digits_val(p);
        let d = digit_val(s.last());
        assert(digits_val(s) == v * 10 + d);
        if v == 0 {
            assert(dec_str(0) == seq![dec_digit(0)]);
            assert(p[0] == '0');
            assert(false);
        }
        assert(v >= 1);
        assert(v * 10 + d >= 10);
        assert((v * 10 + d) / 10 == v && (v * 10 + d) % 10 == d) by (nonlinear_arith)
            requires
                0 <= d <= 9,
                0 <= v,
        ;
        assert(dec_str(v * 10 + d) == dec_str(v).push(dec_digit(d)));
        assert(s =~= p.push(s.last()));
        lemma_dec_str_digits(v);
    }
}

/// Distinct values have distinct numerals.
pub proof fn lemma_dec_str_injective(m: int, n: int)
    requires
        0 <= m,
        0 <= n,
        dec_str(m) == dec_str(n),
    ensures
        m == n,
{
    lemma_dec_str_digits(m);
    lemma_dec_str_digits(n);
}

// ---------------------------------------------------------------------------
// Whitespace trimming
// ---------------------------------------------------------------------------

pub open spec fn is_ws(c: char) -> bool {
    c == ' ' || c == '\t' || c == '\n' || c == '\r'
}

pub open spec fn trim_front(s: Seq<char>) -> Seq<char>
    decreases s.len(),
{
    if s.len() > 0 && is_ws(s[0]) {
        trim_front(s.drop_first())
    } else {
        s
    }
}

pub open spec fn trim_back(s: Seq<char>) -> Seq<char>
    decreases s.len(),
{
    if s.len() > 0 && is_ws(s.last()) {
        trim_back(s.drop_last())
    } else {
        s
    }
}

/// `s` with leading and trailing whitespace removed.
pub open spec fn trim(s: Seq<char>) -> Seq<char> {
    trim_back(trim_front(s))
}

proof fn lemma_trim_front_at(s: Seq<char>, lo: int)
    requires
        0 <= lo <= s.len(),
        forall|k: int| 0 <= k < lo ==> is_ws(#[trigger] s[k]),
        lo == s.len() || !is_ws(s[lo]),
    ensures
        trim_front(s) == s.subrange(lo, s.len() as int),
    decreases lo,
{
    if lo == 0 {
        assert(s.subrange(0, s.len() as int) =~= s);
    } else {
        let t = s.drop_first();
        assert(forall|k: int| 0 <= k < lo - 1 ==> is_ws(#[trigger] t[k])) by {
            assert(forall|k: int| 0 <= k < lo - 1 ==> t[k] == s[k + 1]);
        }
        lemma_trim_front_at(t, lo - 1);
        assert(t.subrange(lo - 1, t.len() as int) =~= s.subrange(lo, s.len() as int));
    }
}

proof fn lemma_trim_back_at(s: Seq<char>, hi: int)
    requires
        0 <= hi <= s.len(),
        forall|k: int| hi <= k < s.len() ==> is_ws(#[trigger] s[k]),
        hi == 0 || !is_ws(s[hi - 1]),
    ensures
        trim_back(s) == s.subrange(0, hi),
    decreases s.len() - hi,
{
    if hi == s.len() {
        assert(s.subrange(0, s.len() as int) =~= s);
    } else {
        let t = s.drop_last();
        assert(forall|k: int| hi <= k < t.len() ==> is_ws(#[trigger] t[k])) by {
            assert(forall|k: int| hi <= k < t.len() ==> t[k] == s[k]);
        }
        lemma_trim_back_at(t, hi);
        assert(t.subrange(0, hi) =~= s.subrange(0, hi));
    }
}

fn is_ws_exec(c: char) -> (r: bool)
    ensures
        r == is_ws(c),
{
    c == ' ' || c == '\t' || c == '\n' || c == '\r'
}

/// The index range of `v` that remains when whitespace is trimmed at both ends.
pub fn trim_range(v: &Vec<char>) -> (r: (usize, usize))
    ensures
        r.0 <= r.1 <= v.len(),
        v@.subrange(r.0 as int, r.1 as int) == trim(v@),
{
    let n = v.len();
    let mut lo: usize = 0;
    while lo < n && is_ws_exec(v[lo])
        invariant
            0 <= lo <= n,
            n == v.len(),
            forall|k: int| 0 <= k < lo ==> is_ws(#[trigger] v@[k]),
        decreases n - lo,
    {
        lo = lo + 1;
    }
    let mut hi: usize = n;
    while hi > lo && is_ws_exec(v[hi - 1])
        invariant
            lo <= hi <= n,
            n == v.len(),
            forall|k: int| hi <= k < n ==> is_ws(#[trigger] v@[k]),
        decreases hi,
    {
        hi = hi - 1;
    }
    proof {
        lemma_trim_front_at(v@, lo as int);
        let t = v@.subrange(lo as int, n as int);
        assert(forall|k: int| hi - lo <= k < t.len() ==> is_ws(#[trigger] t[k])) by {
            assert(forall|k: int| hi - lo <= k < t.len() ==> t[k] == v@[k + lo]);
        }
        lemma_trim_back_at(t, hi - lo);
        assert(t.subrange(0, hi - lo) =~= v@.subrange(lo as int, hi as int));
    }
    (lo, hi)
}

/// The characters of `s`, one vector entry per character.
pub fn chars_of(s: &str) -> (v: Vec<char>)
    ensures
        v@ == s@,
{
    let n = s.unicode_len();
    let mut v: Vec<char> = Vec::new();
    let mut i: usize = 0;
    while i < n
        invariant
            0 <= i <= n,
            n == s@.len(),
            v@ == s@.subrange(0, i as int),
        decreases n - i,
    {
        let c = s.get_char(i);
        v.push(c);
        proof {
            assert(v@ =~= s@.subrange(0, i + 1 as int));
        }
        i = i + 1;
    }
    proof {
        assert(s@.subrange(0, n as int) =~= s@);
    }
    v
}

// ---------------------------------------------------------------------------
// Rendering numerals
// ---------------------------------------------------------------------------

/// Free of whitespace, and ASCII throughout: the texts this library renders.
pub open spec fn clean_text(s: Seq<char>) -> bool {
    forall|k: int| 0 <= k < s.len() ==> !is_ws(#[trigger] s[k]) && (s[k] as u32) < 128
}

proof fn lemma_clean_concat(a: Seq<char>, b: Seq<char>)
    requires
        clean_text(a),
        clean_text(b),
    ensures
        clean_text(a + b),
{
    assert forall|k: int|
        0 <= k < (a + b).len() implies !is_ws(#[trigger] (a + b)[k]) && ((a + b)[k] as u32)
        < 128 by {
        if k < a.len() {
            assert((a + b)[k] == a[k]);
        } else {
            assert((a + b)[k] == b[k - a.len()]);
        }
    }
}

proof fn lemma_dec_str_clean(n: int)
    requires
        0 <= n,
    ensures
        clean_text(dec_str(n)),
{
    lemma_dec_str_digits(n);
    assert forall|k: int|
        0 <= k < dec_str(n).len() implies !is_ws(#[trigger] dec_str(n)[k]) && (dec_str(n)[k]
            as u32) < 128 by {
        assert(is_digit(dec_str(n)[k]));
    }
}

proof fn lemma_hex_str_clean(n: int)
    requires
        0 <= n,
    ensures
        clean_text(hex_str(n)),
{
    lemma_hex_str_digits(n);
    assert forall|k: int|
        0 <= k < hex_str(n).len() implies !is_ws(#[trigger] hex_str(n)[k]) && (hex_str(n)[k]
            as u32) < 128 by {
        assert(is_hex(hex_str(n)[k]));
    }
}

/// Trimming touches nothing when no whitespace is there.
pub proof fn lemma_trim_clean(s: Seq<char>)
    requires
        clean_text(s),
    ensures
        trim(s) == s,
{
    lemma_trim_front_at(s, 0);
    lemma_trim_back_at(s, s.len() as int);
    assert(s.subrange(0, s.len() as int) =~= s);
}

/// A rendered address text: short, whitespace-free, ASCII.
#[verifier::spinoff_prover]
#[verifier::rlimit(100)]
pub proof fn lemma_ip_text_clean(a: IpAddress)
    ensures
        clean_text(ip_text(a)),
        ip_text(a).len() <= 39,
{
    assert(clean_text(seq!['.'])) by {
        assert(seq!['.'][0] == '.');
    }
    assert(clean_text(seq![':'])) by {
        assert(seq![':'][0] == ':');
    }
    match a {
        IpAddress::V4(x) => {
            lemma_dec_str_digits(x.o0 as int);
            lemma_dec_str_digits(x.o1 as int);
            lemma_dec_str_digits(x.o2 as int);
            lemma_dec_str_digits(x.o3 as int);
            lemma_dec_str_clean(x.o0 as int);
            lemma_dec_str_clean(x.o1 as int);
            lemma_dec_str_clean(x.o2 as int);
            lemma_dec_str_clean(x.o3 as int);
            lemma_clean_concat(dec_str(x.o0 as int), seq!['.']);
            lemma_clean_concat(dec_str(x.o0 as int) + seq!['.'], dec_str(x.o1 as int));
            lemma_clean_concat(
                dec_str(x.o0 as int) + seq!['.'] + dec_str(x.o1 as int),
                seq!['.'],
            );
            lemma_clean_concat(
                dec_str(x.o0 as int) + seq!['.'] + dec_str(x.o1 as int) + seq!['.'],
                dec_str(x.o2 as int),
            );
            lemma_clean_concat(
                dec_str(x.o0 as int) + seq!['.'] + dec_str(x.o1 as int) + seq!['.'] + dec_str(
                    x.o2 as int,
                ),
                seq!['.'],
            );
            lemma_clean_concat(
                dec_str(x.o0 as int) + seq!['.'] + dec_str(x.o1 as int) + seq!['.'] + dec_str(
                    x.o2 as int,
                ) + seq!['.'],
                dec_str(x.o3 as int),
            );
        },
        IpAddress::V6(x) => {
            lemma_hex_str_digits(x.g0 as int);
            lemma_hex_str_digits(x.g1 as int);
            lemma_hex_str_digits(x.g2 as int);
            lemma_hex_str_digits(x.g3 as int);
            lemma_hex_str_digits(x.g4 as int);
            lemma_hex_str_digits(x.g5 as int);
            lemma_hex_str_digits(x.g6 as int);
            lemma_hex_str_digits(x.g7 as int);
            lemma_v6_text_assoc(x);
            lemma_hex_str_clean(x.g7 as int);
            let t7 = hex_str(x.g7 as int);
            lemma_hex_str_clean(x.g6 as int);
            lemma_clean_concat(seq![':'], t7);
            lemma_clean_concat(hex_str(x.g6 as int), seq![':'] + t7);
            let t6 = hex_str(x.g6 as int) + (seq![':'] + t7);
            lemma_hex_str_clean(x.g5 as int);
            lemma_clean_concat(seq![':'], t6);
            lemma_clean_concat(hex_str(x.g5 as int), seq![':'] + t6);
            let t5 = hex_str(x.g5 as int) + (seq![':'] + t6);
            lemma_hex_str_clean(x.g4 as int);
            lemma_clean_concat(seq![':'], t5);
            lemma_clean_concat(hex_str(x.g4 as int), seq![':'] + t5);
            let t4 = hex_str(x.g4 as int) + (seq![':'] + t5);
            lemma_hex_str_clean(x.g3 as int);
            lemma_clean_concat(seq![':'], t4);
            lemma_clean_concat(hex_str(x.g3 as int), seq![':'] + t4);
            let t3 = hex_str(x.g3 as int) + (seq![':'] + t4);
            lemma_hex_str_clean(x.g2 as int);
            lemma_clean_concat(seq![':'], t3);
            lemma_clean_concat(hex_str(x.g2 as int), seq![':'] + t3);
            let t2 = hex_str(x.g2 as int) + (seq![':'] + t3);
            lemma_hex_str_clean(x.g1 as int);
            lemma_clean_concat(seq![':'], t2);
            lemma_clean_concat(hex_str(x.g1 as int), seq![':'] + t2);
            let t1 = hex_str(x.g1 as int) + (seq![':'] + t2);
            lemma_hex_str_clean(x.g0 as int);
            lemma_clean_concat(seq![':'], t1);
            lemma_clean_concat(hex_str(x.g0 as int), seq![':'] + t1);
            let t0 = hex_str(x.g0 as int) + (seq![':'] + t1);
            assert(v6_text(x) =~= t0);
            assert(clean_text(ip_text(a)));
        },
    }
}

fn digit_literal(d: usize) -> (r: &'static str)
    requires
        d < 10,
    ensures
        r@ == seq![dec_digit(d as int)],
{
    proof {
        reveal_strlit("0");
        reveal_strlit("1");
        reveal_strlit("2");
        reveal_strlit("3");
        reveal_strlit("4");
        reveal_strlit("5");
        reveal_strlit("6");
        reveal_strlit("7");
        reveal_strlit("8");
        reveal_strlit("9");
    }
    let r = match d {
        0 => "0",
        1 => "1",
        2 => "2",
        3 => "3",
        4 => "4",
        5 => "5",
        6 => "6",
        7 => "7",
        8 => "8",
        _ => "9",
    };
    proof {
        assert(r@ =~= seq![dec_digit(d as int)]);
    }
    r
}

/// The decimal numeral of `n` as a string.
pub fn dec_string(n: usize) -> (r: String)
    ensures
        r@ == dec_str(n as int),
    decreases n,
{
    if n < 10 {
        let l = digit_literal(n);
        let r = l.to_owned();
        r
    } else {
        let mut r = dec_string(n / 10);
        let l = digit_literal(n % 10);
        r.append(l);
        proof {
            assert(dec_str((n / 10) as int).push(dec_digit(n as int % 10)) =~= dec_str(
                (n / 10) as int,
            ) + seq![dec_digit(n as int % 10)]);
        }
        r
    }
}

// ---------------------------------------------------------------------------
// Dotted-decimal literals
// ---------------------------------------------------------------------------

/// The canonical dotted-decimal text of a V4 address.
pub open spec fn v4_text(a: V4Addr) -> Seq<char> {
    dec_str(a.o0 as int) + seq!['.'] + dec_str(a.o1 as int) + seq!['.'] + dec_str(a.o2 as int)
        + seq!['.'] + dec_str(a.o3 as int)
}

/// A text parses as a V4 address exactly when it is the canonical
/// dotted-decimal form of one; that address is the result.
pub open spec fn parse_v4(s: Seq<char>) -> Option<V4Addr> {
    if exists|a: V4Addr| s == v4_text(a) {
        Some(choose|a: V4Addr| s == v4_text(a))
    } else {
        None
    }
}

/// Where the dots of a dotted-decimal text stand, and what lies between them.
pub proof fn lemma_v4_text_shape(a: V4Addr)
    ensures
        ({
            let s = v4_text(a);
            let l0 = dec_str(a.o0 as int).len() as int;
            let l1 = dec_str(a.o1 as int).len() as int;
            let l2 = dec_str(a.o2 as int).len() as int;
            let l3 = dec_str(a.o3 as int).len() as int;
            let d0 = l0;
            let d1 = l0 + 1 + l1;
            let d2 = l0 + 1 + l1 + 1 + l2;
            &&& s.len() == l0 + l1 + l2 + l3 + 3
            &&& forall|k: int|
                0 <= k < s.len() ==> ((#[trigger] s[k]) == '.' <==> (k == d0 || k == d1 || k
                    == d2))
            &&& s.subrange(0, d0) == dec_str(a.o0 as int)
            &&& s.subrange(d0 + 1, d1) == dec_str(a.o1 as int)
            &&& s.subrange(d1 + 1, d2) == dec_str(a.o2 as int)
            &&& s.subrange(d2 + 1, s.len() as int) == dec_str(a.o3 as int)
        }),
{
    lemma_dec_str_digits(a.o0 as int);
    lemma_dec_str_digits(a.o1 as int);
    lemma_dec_str_digits(a.o2 as int);
    lemma_dec_str_digits(a.o3 as int);
    let t0 = dec_str(a.o0 as int);
    let t1 = dec_str(a.o1 as int);
    let t2 = dec_str(a.o2 as int);
    let t3 = dec_str(a.o3 as int);
    let s = v4_text(a);
    let l0 = t0.len() as int;
    let l1 = t1.len() as int;
    let l2 = t2.len() as int;
    let l3 = t3.len() as int;
    let d0 = l0;
    let d1 = l0 + 1 + l1;
    let d2 = l0 + 1 + l1 + 1 + l2;
    assert(s.len() == l0 + l1 + l2 + l3 + 3);
    assert(s.subrange(0, d0) =~= t0);
    assert(s.subrange(d0 + 1, d1) =~= t1);
    assert(s.subrange(d1 + 1, d2) =~= t2);
    assert(s.subrange(d2 + 1, s.len() as int) =~= t3);
    assert('.' as u32 == 46);
    assert forall|k: int| 0 <= k < s.len() implies ((#[trigger] s[k]) == '.' <==> (k == d0 || k
        == d1 || k == d2)) by {
        if k < d0 {
            assert(s[k] == t0[k]);
            assert(is_digit(t0[k]));
        } else if k == d0 {
            assert(s[k] == '.');
        } else if k < d1 {
            assert(s[k] == t1[k - d0 - 1]);
            assert(is_digit(t1[k - d0 - 1]));
        } else if k == d1 {
            assert(s[k] == '.');
        } else if k < d2 {
            assert(s[k] == t2[k - d1 - 1]);
            assert(is_digit(t2[k - d1 - 1]));
        } else if k == d2 {
            assert(s[k] == '.');
        } else {
            assert(s[k] == t3[k - d2 - 1]);
            assert(is_digit(t3[k - d2 - 1]));
        }
    }
}

/// No two addresses share a dotted-decimal text.
pub proof fn lemma_v4_text_injective(a: V4Addr, b: V4Addr)
    requires
        v4_text(a) == v4_text(b),
    ensures
        a == b,
{
    lemma_v4_text_shape(a);
    lemma_v4_text_shape(b);
    lemma_dec_str_digits(a.o0 as int);
    lemma_dec_str_digits(a.o1 as int);
    lemma_dec_str_digits(a.o2 as int);
    lemma_dec_str_digits(a.o3 as int);
    lemma_dec_str_digits(b.o0 as int);
    lemma_dec_str_digits(b.o1 as int);
    lemma_dec_str_digits(b.o2 as int);
    lemma_dec_str_digits(b.o3 as int);
    let s = v4_text(a);
    let la0 = dec_str(a.o0 as int).len() as int;
    let la1 = dec_str(a.o1 as int).len() as int;
    let la2 = dec_str(a.o2 as int).len() as int;
    let da0 = la0;
    let da1 = la0 + 1 + la1;
    let da2 = la0 + 1 + la1 + 1 + la2;
    let lb0 = dec_str(b.o0 as int).len() as int;
    let lb1 = dec_str(b.o1 as int).len() as int;
    let lb2 = dec_str(b.o2 as int).len() as int;
    let db0 = lb0;
    let db1 = lb0 + 1 + lb1;
    let db2 = lb0 + 1 + lb1 + 1 + lb2;
    assert(s[da0] == '.');
    assert(s[da1] == '.');
    assert(s[da2] == '.');
    assert(da0 == db0 || da0 == db1 || da0 == db2);
    assert(db0 == da0 || db0 == da1 || db0 == da2);
    assert(da0 == db0);
    assert(da1 == db1 || da1 == db2);
    assert(db1 == da1 || db1 == da2);
    assert(da1 == db1);
    assert(da2 == db2);
    assert(dec_str(a.o0 as int) == dec_str(b.o0 as int));
    assert(dec_str(a.o1 as int) == dec_str(b.o1 as int));
    assert(dec_str(a.o2 as int) == dec_str(b.o2 as int));
    assert(dec_str(a.o3 as int) =~= dec_str(b.o3 as int));
    lemma_dec_str_injective(a.o0 as int, b.o0 as int);
    lemma_dec_str_injective(a.o1 as int, b.o1 as int);
    lemma_dec_str_injective(a.o2 as int, b.o2 as int);
    lemma_dec_str_injective(a.o3 as int, b.o3 as int);
}

fn digit_of(c: char) -> (r: Option<u8>)
    ensures
        match r {
            Some(d) => is_digit(c) && digit_val(c) == d as int && d < 10,
            None => !is_digit(c),
        },
{
    let u = c as u32;
    if 48 <= u && u <= 57 {
        Some((u - 48) as u8)
    } else {
        None
    }
}

/// Reads one octet: the range must hold exactly the decimal numeral of a
/// value up to 255, with no leading zero.
fn octet_from_range(v: &Vec<char>, lo: usize, hi: usize) -> (r: Option<u8>)
    requires
        lo <= hi <= v.len(),
    ensures
        ({
            let s = v@.subrange(lo as int, hi as int);
            match r {
                Some(n) => s == dec_str(n as int),
                None => forall|n: u8| s != dec_str(n as int),
            }
        }),
{
    let ghost s = v@.subrange(lo as int, hi as int);
    let len = hi - lo;
    if len == 0 || len > 3 {
        proof {
            assert forall|n: u8| s != dec_str(n as int) by {
                lemma_dec_str_digits(n as int);
            }
        }
        return None;
    }
    let mut i = lo;
    let mut val: u32 = 0;
    while i < hi
        invariant
            lo <= i <= hi <= v.len(),
            hi - lo <= 3,
            s == v@.subrange(lo as int, hi as int),
            forall|k: int| 0 <= k < i - lo ==> is_digit(#[trigger] s[k]),
            val == digits_val(s.subrange(0, i - lo)),
            val <= 999,
        decreases hi - i,
    {
        let c = v[i];
        proof {
            assert(s[i - lo] == v@[i as int]);
        }
        match digit_of(c) {
            Some(d) => {
                proof {
                    let pre = s.subrange(0, i - lo);
                    let post = s.subrange(0, i - lo + 1);
                    assert(post =~= pre.push(s[i - lo]));
                    assert(post.drop_last() =~= pre);
                    assert(digits_val(post) == digits_val(pre) * 10 + digit_val(s[i - lo]));
                    assert(digits_val(pre) <= 99) by {
                        if i - lo >= 2 {
                            assert(hi - lo == 3 && i - lo == 2);
                            lemma_digits_prefix_bound(pre);
                        } else {
                            lemma_digits_prefix_bound(pre);
                        }
                    }
                }
                val = val * 10 + (d as u32);
            },
            None => {
                proof {
                    assert(!is_digit(s[i - lo]));
                    assert forall|n: u8| s != dec_str(n as int) by {
                        lemma_dec_str_digits(n as int);
                        if s == dec_str(n as int) {
                            assert(is_digit(s[i - lo]));
                        }
                    }
                }
                return None;
            },
        }
        i = i + 1;
    }
    proof {
        assert(s.subrange(0, (hi - lo) as int) =~= s);
    }
    if len > 1 && v[lo] == '0' {
        proof {
            assert(s[0] == v@[lo as int]);
            assert forall|n: u8| s != dec_str(n as int) by {
                lemma_dec_str_digits(n as int);
            }
        }
        return None;
    }
    if val > 255 {
        proof {
            assert forall|n: u8| s != dec_str(n as int) by {
                lemma_dec_str_digits(n as int);
            }
        }
        return None;
    }
    proof {
        lemma_digits_complete(s);
    }
    Some(val as u8)
}

proof fn lemma_digits_prefix_bound(s: Seq<char>)
    requires
        forall|k: int| 0 <= k < s.len() ==> is_digit(#[trigger] s[k]),
        s.len() <= 2,
    ensures
        0 <= digits_val(s) <= 99,
        s.len() <= 1 ==> digits_val(s) <= 9,
        s.len() == 0 ==> digits_val(s) == 0,
    decreases s.len(),
{
    if s.len() > 0 {
        assert(forall|k: int|
            0 <= k < s.drop_last().len() ==> is_digit(#[trigger] s.drop_last()[k]));
        lemma_digits_prefix_bound(s.drop_last());
        assert(0 <= digit_val(s.last()) <= 9);
    }
}

/// Where three sorted positions cover exactly the dots of a dotted-decimal
/// text, they are its three separators, and the ranges between them hold the
/// four numerals.
proof fn lemma_v4_structure(s: Seq<char>, dots: Seq<usize>, a: V4Addr)
    requires
        s == v4_text(a),
        forall|j: int|
            0 <= j < dots.len() ==> 0 <= #[trigger] dots[j] < s.len() && s[dots[j] as int] == '.',
        forall|i: int, j: int| 0 <= i < j < dots.len() ==> dots[i] < dots[j],
        forall|p: int|
            0 <= p < s.len() && (#[trigger] s[p]) == '.' ==> exists|j: int|
                0 <= j < dots.len() && dots[j] == p,
    ensures
        dots.len() == 3,
        s.subrange(0, dots[0] as int) == dec_str(a.o0 as int),
        s.subrange(dots[0] as int + 1, dots[1] as int) == dec_str(a.o1 as int),
        s.subrange(dots[1] as int + 1, dots[2] as int) == dec_str(a.o2 as int),
        s.subrange(dots[2] as int + 1, s.len() as int) == dec_str(a.o3 as int),
{
    lemma_v4_text_shape(a);
    let l0 = dec_str(a.o0 as int).len() as int;
    let l1 = dec_str(a.o1 as int).len() as int;
    let l2 = dec_str(a.o2 as int).len() as int;
    let d0 = l0;
    let d1 = l0 + 1 + l1;
    let d2 = l0 + 1 + l1 + 1 + l2;
    assert(s[d0] == '.');
    assert(s[d1] == '.');
    assert(s[d2] == '.');
    let j0 = choose|j: int| 0 <= j < dots.len() && dots[j] == d0;
    let j1 = choose|j: int| 0 <= j < dots.len() && dots[j] == d1;
    let j2 = choose|j: int| 0 <= j < dots.len() && dots[j] == d2;
    assert(dots[j0] == d0 && dots[j1] == d1 && dots[j2] == d2);
    assert(j0 != j1 && j1 != j2 && j0 != j2);
    assert(dots.len() >= 3);
    if dots.len() >= 4 {
        assert(s[dots[0] as int] == '.' && s[dots[1] as int] == '.' && s[dots[2] as int] == '.'
            && s[dots[3] as int] == '.');
        assert(forall|j: int|
            0 <= j < 4 ==> dots[j] == d0 || #[trigger] dots[j] == d1 || dots[j] == d2);
        assert(dots[0] < dots[1] < dots[2] < dots[3]);
        assert(false);
    }
    assert(forall|j: int|
        0 <= j < 3 ==> dots[j] == d0 || #[trigger] dots[j] == d1 || dots[j] == d2);
    assert(dots[0] < dots[1] < dots[2]);
    assert(d0 < d1 < d2);
    assert(dots[0] == d0 && dots[1] == d1 && dots[2] == d2);
}

/// Reads a whole dotted-decimal literal from the range.
#[verifier::spinoff_prover]
#[verifier::rlimit(50)]
pub fn v4_from_range(v: &Vec<char>, lo: usize, hi: usize) -> (r: Option<V4Addr>)
    requires
        lo <= hi <= v.len(),
    ensures
        ({
            let s = v@.subrange(lo as int, hi as int);
            match r {
                Some(a) => parse_v4(s) == Some(a) && s == v4_text(a),
                None => parse_v4(s) is None,
            }
        }),
{
    let ghost s = v@.subrange(lo as int, hi as int);
    let mut dots: Vec<usize> = Vec::new();
    let mut k = lo;
    while k < hi
        invariant
            lo <= k <= hi <= v.len(),
            s == v@.subrange(lo as int, hi as int),
            forall|j: int|
                0 <= j < dots@.len() ==> 0 <= #[trigger] dots@[j] < k - lo && s[dots@[j] as int]
                    == '.',
            forall|i: int, j: int| 0 <= i < j < dots@.len() ==> dots@[i] < dots@[j],
            forall|p: int|
                0 <= p < k - lo && (#[trigger] s[p]) == '.' ==> exists|j: int|
                    0 <= j < dots@.len() && dots@[j] == p,
        decreases hi - k,
    {
        proof {
            assert(s[k - lo] == v@[k as int]);
        }
        if v[k] == '.' {
            let ghost olddots = dots@;
            dots.push(k - lo);
            proof {
                assert forall|p: int|
                    0 <= p < k + 1 - lo && (#[trigger] s[p]) == '.' implies exists|j: int|
                    0 <= j < dots@.len() && dots@[j] == p by {
                    if p < k - lo {
                        let j = choose|j: int| 0 <= j < olddots.len() && olddots[j] == p;
                        assert(dots@[j] == p);
                    } else {
                        assert(dots@[dots@.len() - 1] == p);
                    }
                }
            }
        }
        k = k + 1;
    }
    if dots.len() != 3 {
        proof {
            if exists|a: V4Addr| s == v4_text(a) {
                let a = choose|a: V4Addr| s == v4_text(a);
                lemma_v4_structure(s, dots@, a);
            }
        }
        return None;
    }
    let d0 = dots[0];
    let d1 = dots[1];
    let d2 = dots[2];
    let r0 = octet_from_range(v, lo, lo + d0);
    let r1 = octet_from_range(v, lo + d0 + 1, lo + d1);
    let r2 = octet_from_range(v, lo + d1 + 1, lo + d2);
    let r3 = octet_from_range(v, lo + d2 + 1, hi);
    proof {
        assert(v@.subrange(lo as int, lo + d0) =~= s.subrange(0, d0 as int));
        assert(v@.subrange(lo + d0 + 1, lo + d1 as int) =~= s.subrange(d0 + 1, d1 as int));
        assert(v@.subrange(lo + d1 + 1, lo + d2 as int) =~= s.subrange(d1 + 1, d2 as int));
        assert(v@.subrange(lo + d2 + 1, hi as int) =~= s.subrange(d2 + 1, s.len() as int));
    }
    match (r0, r1, r2, r3) {
        (Some(n0), Some(n1), Some(n2), Some(n3)) => {
            let a = V4Addr { o0: n0, o1: n1, o2: n2, o3: n3 };
            proof {
                lemma_dec_str_digits(n0 as int);
                lemma_dec_str_digits(n1 as int);
                lemma_dec_str_digits(n2 as int);
                lemma_dec_str_digits(n3 as int);
                assert(s[d0 as int] == '.' && s[d1 as int] == '.' && s[d2 as int] == '.');
                assert(s =~= v4_text(a));
                let b = choose|b: V4Addr| s == v4_text(b);
                lemma_v4_text_injective(a, b);
            }
            Some(a)
        },
        _ => {
            proof {
                if exists|a: V4Addr| s == v4_text(a) {
                    let a = choose|a: V4Addr| s == v4_text(a);
                    lemma_v4_structure(s, dots@, a);
                    assert(false);
                }
            }
            None
        },
    }
}

// ---------------------------------------------------------------------------
// Colon-hex literals
// ---------------------------------------------------------------------------

pub open spec fn is_hex(c: char) -> bool {
    is_digit(c) || 97 <= c as u32 <= 102 || 65 <= c as u32 <= 70
}

pub open spec fn hex_val(c: char) -> int {
    if is_digit(c) {
        digit_val(c)
    } else if 97 <= c as u32 <= 102 {
        c as u32 - 87
    } else {
        c as u32 - 55
    }
}

/// Length of the run of hex digits at the front of `s`.
pub open spec fn hex_prefix_len(s: Seq<char>) -> int
    decreases s.len(),
{
    if s.len() > 0 && is_hex(s[0]) {
        1 + hex_prefix_len(s.drop_first())
    } else {
        0
    }
}

/// The value of a hex digit string, most significant digit first.
pub open spec fn group_val(s: Seq<char>) -> int
    decreases s.len(),
{
    if s.len() == 0 {
        0
    } else {
        group_val(s.drop_last()) * 16 + hex_val(s.last())
    }
}

/// `s` read as hex groups of one to four digits separated by single colons.
/// The empty text stands for zero groups; otherwise at least one group must
/// be present, and the text may neither start nor end with a colon.
pub open spec fn colon_groups(s: Seq<char>) -> Option<Seq<u16>> {
    if s.len() == 0 {
        Some(seq![])
    } else {
        colon_groups_ne(s)
    }
}

pub open spec fn colon_groups_ne(s: Seq<char>) -> Option<Seq<u16>>
    decreases s.len(),
{
    let k = hex_prefix_len(s);
    if k < 1 || k > 4 {
        None
    } else if k == s.len() {
        Some(seq![group_val(s) as u16])
    } else if s[k] == ':' && k + 1 < s.len() {
        match colon_groups_ne(s.subrange(k + 1, s.len() as int)) {
            Some(gs) => Some(seq![group_val(s.subrange(0, k)) as u16] + gs),
            None => None,
        }
    } else {
        None
    }
}

/// A double colon at position `p`.
pub open spec fn is_dc(s: Seq<char>, p: int) -> bool {
    0 <= p && p + 1 < s.len() && s[p] == ':' && s[p + 1] == ':'
}

pub open spec fn v6_of_groups(gs: Seq<u16>) -> V6Addr {
    V6Addr {
        g0: gs[0],
        g1: gs[1],
        g2: gs[2],
        g3: gs[3],
        g4: gs[4],
        g5: gs[5],
        g6: gs[6],
        g7: gs[7],
    }
}

/// A colon-hex literal: either eight groups, or fewer with one double colon
/// standing for the missing all-zero groups (at least one of them).
pub open spec fn parse_v6(s: Seq<char>) -> Option<V6Addr> {
    if exists|p: int| is_dc(s, p) {
        let p = choose|p: int| is_dc(s, p);
        if forall|q: int| is_dc(s, q) ==> q == p {
            let left = s.subrange(0, p);
            let right = s.subrange(p + 2, s.len() as int);
            match (colon_groups(left), colon_groups(right)) {
                (Some(ls), Some(rs)) => if ls.len() + rs.len() <= 7 {
                    Some(v6_of_groups(ls + Seq::new((8 - ls.len() - rs.len()) as nat, |i: int| 0u16) + rs))
                } else {
                    None
                },
                _ => None,
            }
        } else {
            None
        }
    } else {
        match colon_groups(s) {
            Some(gs) => if gs.len() == 8 {
                Some(v6_of_groups(gs))
            } else {
                None
            },
            None => None,
        }
    }
}

proof fn lemma_hex_prefix_at(s: Seq<char>, k: int)
    requires
        0 <= k <= s.len(),
        forall|j: int| 0 <= j < k ==> is_hex(#[trigger] s[j]),
        k == s.len() || !is_hex(s[k]),
    ensures
        hex_prefix_len(s) == k,
    decreases k,
{
    if k == 0 {
    } else {
        let t = s.drop_first();
        assert(forall|j: int| 0 <= j < k - 1 ==> #[trigger] t[j] == s[j + 1]);
        lemma_hex_prefix_at(t, k - 1);
    }
}

proof fn lemma_hex_prefix_lb(s: Seq<char>, k: int)
    requires
        0 <= k <= s.len(),
        forall|j: int| 0 <= j < k ==> is_hex(#[trigger] s[j]),
    ensures
        hex_prefix_len(s) >= k,
    decreases k,
{
    if k > 0 {
        assert(is_hex(s[0]));
        let t = s.drop_first();
        assert(forall|j: int| 0 <= j < k - 1 ==> #[trigger] t[j] == s[j + 1]);
        lemma_hex_prefix_lb(t, k - 1);
        assert(hex_prefix_len(s) == 1 + hex_prefix_len(t));
    } else {
        lemma_hex_prefix_nonneg(s);
    }
}

proof fn lemma_hex_prefix_nonneg(s: Seq<char>)
    ensures
        hex_prefix_len(s) >= 0,
    decreases s.len(),
{
    if s.len() > 0 && is_hex(s[0]) {
        lemma_hex_prefix_nonneg(s.drop_first());
    }
}

proof fn lemma_group_val_bound(s: Seq<char>)
    requires
        s.len() <= 4,
        forall|j: int| 0 <= j < s.len() ==> is_hex(#[trigger] s[j]),
    ensures
        0 <= group_val(s) < 65536,
        s.len() <= 3 ==> group_val(s) < 4096,
        s.len() <= 2 ==> group_val(s) < 256,
        s.len() <= 1 ==> group_val(s) < 16,
    decreases s.len(),
{
    if s.len() > 0 {
        let p = s.drop_last();
        assert(forall|j: int| 0 <= j < p.len() ==> #[trigger] p[j] == s[j]);
        lemma_group_val_bound(p);
        assert(is_hex(s.last()));
        assert(0 <= hex_val(s.last()) < 16);
    }
}

proof fn lemma_group_val_nonneg(s: Seq<char>)
    requires
        forall|j: int| 0 <= j < s.len() ==> is_hex(#[trigger] s[j]),
    ensures
        group_val(s) >= 0,
    decreases s.len(),
{
    if s.len() > 0 {
        let p = s.drop_last();
        assert(forall|j: int| 0 <= j < p.len() ==> #[trigger] p[j] == s[j]);
        lemma_group_val_nonneg(p);
        assert(hex_val(s.last()) >= 0);
    }
}

fn hex_of(c: char) -> (r: Option<u8>)
    ensures
        match r {
            Some(h) => is_hex(c) && hex_val(c) == h as int && h < 16,
            None => !is_hex(c),
        },
{
    let u = c as u32;
    if 48 <= u && u <= 57 {
        Some((u - 48) as u8)
    } else if 97 <= u && u <= 102 {
        Some((u - 87) as u8)
    } else if 65 <= u && u <= 70 {
        Some((u - 55) as u8)
    } else {
        None
    }
}

/// Reads the colon-separated hex groups of the range.
fn groups_from_range(v: &Vec<char>, lo: usize, hi: usize) -> (r: Option<Vec<u16>>)
    requires
        lo <= hi <= v.len(),
    ensures
        ({
            let s = v@.subrange(lo as int, hi as int);
            match r {
                Some(gs) => colon_groups(s) == Some(gs@),
                None => colon_groups(s) is None,
            }
        }),
    decreases hi - lo,
{
    let ghost s = v@.subrange(lo as int, hi as int);
    if lo == hi {
        let gs: Vec<u16> = Vec::new();
        proof {
            assert(gs@ =~= Seq::<u16>::empty());
        }
        return Some(gs);
    }
    let mut k = lo;
    while k < hi && k - lo < 5 && hex_of(v[k]).is_some()
        invariant
            lo <= k <= hi <= v.len(),
            k - lo <= 5,
            s == v@.subrange(lo as int, hi as int),
            forall|j: int| 0 <= j < k - lo ==> is_hex(#[trigger] s[j]),
        decreases hi - k,
    {
        proof {
            assert(s[k - lo] == v@[k as int]);
        }
        k = k + 1;
    }
    let klen = k - lo;
    if klen == 5 {
        proof {
            lemma_hex_prefix_lb(s, 5);
        }
        return None;
    }
    proof {
        assert(k == hi || !is_hex(s[k - lo])) by {
            if k < hi {
                assert(s[k - lo] == v@[k as int]);
            }
        }
        lemma_hex_prefix_at(s, klen as int);
    }
    if klen < 1 {
        return None;
    }
    let mut val: u32 = 0;
    let mut i = lo;
    while i < k
        invariant
            lo <= i <= k <= hi <= v.len(),
            k - lo <= 4,
            s == v@.subrange(lo as int, hi as int),
            forall|j: int| 0 <= j < k - lo ==> is_hex(#[trigger] s[j]),
            val == group_val(s.subrange(0, i - lo)),
            val < 65536,
        decreases k - i,
    {
        proof {
            assert(s[i - lo] == v@[i as int]);
        }
        let h = match hex_of(v[i]) {
            Some(h) => h,
            None => {
                proof {
                    assert(false);
                }
                0
            },
        };
        proof {
            let pre = s.subrange(0, i - lo);
            let post = s.subrange(0, i - lo + 1);
            assert(post =~= pre.push(s[i - lo]));
            assert(post.drop_last() =~= pre);
            assert(group_val(post) == group_val(pre) * 16 + hex_val(s[i - lo]));
            lemma_group_val_bound(pre);
            lemma_group_val_bound(post);
            lemma_group_val_nonneg(pre);
        }
        val = val * 16 + (h as u32);
        i = i + 1;
    }
    proof {
        lemma_group_val_nonneg(s.subrange(0, klen as int));
    }
    if k == hi {
        proof {
            assert(s.subrange(0, klen as int) =~= s);
        }
        let mut gs: Vec<u16> = Vec::new();
        gs.push(val as u16);
        proof {
            assert(gs@ =~= seq![group_val(s) as u16]);
        }
        return Some(gs);
    }
    proof {
        assert(s[k - lo] == v@[k as int]);
    }
    if v[k] != ':' {
        return None;
    }
    if k + 1 >= hi {
        return None;
    }
    match groups_from_range(v, k + 1, hi) {
        Some(mut rest) => {
            proof {
                assert(v@.subrange((k + 1) as int, hi as int) =~= s.subrange(
                    (klen + 1) as int,
                    s.len() as int,
                ));
            }
            let mut gs: Vec<u16> = Vec::new();
            gs.push(val as u16);
            gs.append(&mut rest);
            proof {
                assert(gs@ =~= seq![group_val(s.subrange(0, klen as int)) as u16]
                    + colon_groups_ne(s.subrange((klen + 1) as int, s.len() as int))->0);
            }
            Some(gs)
        },
        None => {
            proof {
                assert(v@.subrange((k + 1) as int, hi as int) =~= s.subrange(
                    (klen + 1) as int,
                    s.len() as int,
                ));
            }
            None
        },
    }
}

/// Reads a whole colon-hex literal from the range.
pub fn v6_from_range(v: &Vec<char>, lo: usize, hi: usize) -> (r: Option<V6Addr>)
    requires
        lo <= hi <= v.len(),
    ensures
        ({
            let s = v@.subrange(lo as int, hi as int);
            match r {
                Some(b) => parse_v6(s) == Some(b),
                None => parse_v6(s) is None,
            }
        }),
{
    let ghost s = v@.subrange(lo as int, hi as int);
    let mut first: Option<usize> = None;
    let mut multi = false;
    if hi - lo >= 2 {
        let end = hi - 1;
        let mut k = lo;
        while k < end
            invariant
                lo <= k <= end,
                end == hi - 1,
                lo < hi <= v.len(),
                s == v@.subrange(lo as int, hi as int),
                match first {
                    None => !multi && forall|p: int| p < k - lo ==> !is_dc(s, p),
                    Some(f) => is_dc(s, f as int) && f < k - lo && (forall|p: int|
                        p < f ==> !is_dc(s, p)) && (!multi ==> forall|p: int|
                        f < p < k - lo ==> !is_dc(s, p)) && (multi ==> exists|q: int|
                        q != f && is_dc(s, q)),
                },
            decreases end - k,
        {
            let here = v[k] == ':' && v[k + 1] == ':';
            proof {
                assert(s[(k - lo) as int] == v@[k as int]);
                assert(s[(k + 1 - lo) as int] == v@[(k + 1) as int]);
                assert(here == is_dc(s, (k - lo) as int));
            }
            if here {
                match first {
                    None => {
                        first = Some(k - lo);
                    },
                    Some(f) => {
                        if k - lo != f {
                            multi = true;
                        }
                    },
                }
            }
            k = k + 1;
        }
    }
    proof {
        assert(forall|p: int| is_dc(s, p) ==> 0 <= p < s.len() - 1);
    }
    match first {
        None => {
            match groups_from_range(v, lo, hi) {
                Some(gs) => {
                    if gs.len() == 8 {
                        let b = V6Addr {
                            g0: gs[0],
                            g1: gs[1],
                            g2: gs[2],
                            g3: gs[3],
                            g4: gs[4],
                            g5: gs[5],
                            g6: gs[6],
                            g7: gs[7],
                        };
                        proof {
                            assert(parse_v6(s) == Some(v6_of_groups(gs@)));
                        }
                        Some(b)
                    } else {
                        None
                    }
                },
                None => None,
            }
        },
        Some(f) => {
            if multi {
                proof {
                    let q = choose|q: int| q != f && is_dc(s, q);
                    let p = choose|p: int| is_dc(s, p);
                    assert(is_dc(s, f as int) && is_dc(s, q));
                    assert(!(forall|q2: int| is_dc(s, q2) ==> q2 == p));
                }
                return None;
            }
            proof {
                assert(forall|q: int| is_dc(s, q) ==> q == f) by {
                    assert(forall|q: int| is_dc(s, q) ==> 0 <= q < s.len() - 1);
                }
                let p = choose|p: int| is_dc(s, p);
                assert(p == f);
            }
            let lgs = match groups_from_range(v, lo, lo + f) {
                Some(x) => x,
                None => {
                    proof {
                        assert(v@.subrange(lo as int, lo + f as int) =~= s.subrange(0, f as int));
                    }
                    return None;
                },
            };
            let rgs = match groups_from_range(v, lo + f + 2, hi) {
                Some(x) => x,
                None => {
                    proof {
                        assert(v@.subrange(lo + f + 2 as int, hi as int) =~= s.subrange(
                            f + 2 as int,
                            s.len() as int,
                        ));
                    }
                    return None;
                },
            };
            proof {
                assert(v@.subrange(lo as int, lo + f as int) =~= s.subrange(0, f as int));
                assert(v@.subrange(lo + f + 2 as int, hi as int) =~= s.subrange(
                    f + 2 as int,
                    s.len() as int,
                ));
            }
            if lgs.len() > 7 || rgs.len() > 7 - lgs.len() {
                return None;
            }
            let fill = 8 - lgs.len() - rgs.len();
            let mut gs: Vec<u16> = Vec::new();
            let mut i: usize = 0;
            while i < lgs.len()
                invariant
                    0 <= i <= lgs.len(),
                    gs@ == lgs@.subrange(0, i as int),
                decreases lgs.len() - i,
            {
                gs.push(lgs[i]);
                proof {
                    assert(gs@ =~= lgs@.subrange(0, i + 1 as int));
                }
                i = i + 1;
            }
            let mut z: usize = 0;
            while z < fill
                invariant
                    0 <= z <= fill,
                    gs@ == lgs@.subrange(0, lgs@.len() as int) + Seq::new(
                        z as nat,
                        |j: int| 0u16,
                    ),
                decreases fill - z,
            {
                gs.push(0u16);
                proof {
                    assert(gs@ =~= lgs@.subrange(0, lgs@.len() as int) + Seq::new(
                        (z + 1) as nat,
                        |j: int| 0u16,
                    ));
                }
                z = z + 1;
            }
            let mut j: usize = 0;
            while j < rgs.len()
                invariant
                    0 <= j <= rgs.len(),
                    gs@ == lgs@.subrange(0, lgs@.len() as int) + Seq::new(
                        fill as nat,
                        |x: int| 0u16,
                    ) + rgs@.subrange(0, j as int),
                decreases rgs.len() - j,
            {
                gs.push(rgs[j]);
                proof {
                    assert(gs@ =~= lgs@.subrange(0, lgs@.len() as int) + Seq::new(
                        fill as nat,
                        |x: int| 0u16,
                    ) + rgs@.subrange(0, j + 1 as int));
                }
                j = j + 1;
            }
            proof {
                assert(lgs@.subrange(0, lgs@.len() as int) =~= lgs@);
                assert(rgs@.subrange(0, rgs@.len() as int) =~= rgs@);
                assert(gs@ =~= lgs@ + Seq::new(fill as nat, |x: int| 0u16) + rgs@);
                assert(gs@.len() == 8);
            }
            let b = V6Addr {
                g0: gs[0],
                g1: gs[1],
                g2: gs[2],
                g3: gs[3],
                g4: gs[4],
                g5: gs[5],
                g6: gs[6],
                g7: gs[7],
            };
            proof {
                assert(parse_v6(s) == Some(v6_of_groups(gs@)));
            }
            Some(b)
        },
    }
}

// ---------------------------------------------------------------------------
// Parsing an address
// ---------------------------------------------------------------------------

/// What a text means as an address of the selected family, once trimmed.
pub open spec fn parse_ip_spec(ver: IpVersion, t: Seq<char>) -> Option<IpAddress> {
    match ver {
        IpVersion::IPv4 => match parse_v4(t) {
            Some(a) => Some(IpAddress::V4(a)),
            None => None,
        },
        IpVersion::IPv6 => match parse_v6(t) {
            Some(b) => Some(IpAddress::V6(b)),
            None => None,
        },
    }
}

/// Trims a character vector and reads it as an address of the family.
pub fn parse_from_chars(ip_version: &IpVersion, v: &Vec<char>) -> (r: Option<IpAddress>)
    ensures
        r == parse_ip_spec(*ip_version, trim(v@)),
{
    let (lo, hi) = trim_range(v);
    match ip_version {
        IpVersion::IPv4 => match v4_from_range(v, lo, hi) {
            Some(a) => Some(IpAddress::V4(a)),
            None => None,
        },
        IpVersion::IPv6 => match v6_from_range(v, lo, hi) {
            Some(b) => Some(IpAddress::V6(b)),
            None => None,
        },
    }
}

/// Trims the text and reads it as an address of the selected family;
/// anything but an exact literal of that family is rejected.
pub fn parse_ip(ip_version: &IpVersion, s: &str) -> (r: Result<IpAddress, Error>)
    ensures
        match r {
            Ok(a) => parse_ip_spec(*ip_version, trim(s@)) == Some(a),
            Err(e) => parse_ip_spec(*ip_version, trim(s@)) is None && e.source
                == ErrorSource::Addr,
        },
{
    let v = chars_of(s);
    let parsed = parse_from_chars(ip_version, &v);
    match parsed {
        Some(a) => Ok(a),
        None => Err(
            Error::new("parse_ip: Failed to parse address text".to_owned(), ErrorSource::Addr),
        ),
    }
}

// ---------------------------------------------------------------------------
// Rendering an address
// ---------------------------------------------------------------------------

pub open spec fn hex_digit(n: int) -> char {
    if n < 10 {
        dec_digit(n)
    } else if n == 10 {
        'a'
    } else if n == 11 {
        'b'
    } else if n == 12 {
        'c'
    } else if n == 13 {
        'd'
    } else if n == 14 {
        'e'
    } else {
        'f'
    }
}

/// The lowercase hex numeral of `n`, without leading zeros.
pub open spec fn hex_str(n: int) -> Seq<char>
    decreases n,
{
    if n < 16 {
        seq![hex_digit(n)]
    } else {
        hex_str(n / 16).push(hex_digit(n % 16))
    }
}

/// The text this library renders a V6 address as: all eight groups written
/// out in lowercase hex, no run compression.
pub open spec fn v6_text(b: V6Addr) -> Seq<char> {
    hex_str(b.g0 as int) + seq![':'] + hex_str(b.g1 as int) + seq![':'] + hex_str(b.g2 as int)
        + seq![':'] + hex_str(b.g3 as int) + seq![':'] + hex_str(b.g4 as int) + seq![':']
        + hex_str(b.g5 as int) + seq![':'] + hex_str(b.g6 as int) + seq![':'] + hex_str(
        b.g7 as int,
    )
}

/// The canonical text of an address.
pub open spec fn ip_text(a: IpAddress) -> Seq<char> {
    match a {
        IpAddress::V4(x) => v4_text(x),
        IpAddress::V6(x) => v6_text(x),
    }
}

/// Round trip of the dotted-decimal form: a canonical V4 text, however the
/// input around it was padded with whitespace, parses back to exactly its
/// address in the V4 family, and parses to nothing in the V6 family.
pub proof fn lemma_v4_round_trip(a: V4Addr, s: Seq<char>)
    requires
        trim(s) == v4_text(a),
    ensures
        parse_ip_spec(IpVersion::IPv4, trim(s)) == Some(IpAddress::V4(a)),
        parse_ip_spec(IpVersion::IPv6, trim(s)) is None,
{
    let t = trim(s);
    lemma_v4_text_shape(a);
    lemma_dec_str_digits(a.o0 as int);
    lemma_dec_str_digits(a.o1 as int);
    lemma_dec_str_digits(a.o2 as int);
    lemma_dec_str_digits(a.o3 as int);
    assert(exists|b: V4Addr| t == v4_text(b)) by {
        assert(t == v4_text(a));
    }
    let b = choose|b: V4Addr| t == v4_text(b);
    lemma_v4_text_injective(a, b);
    assert(parse_v4(t) == Some(a));
    let l0 = dec_str(a.o0 as int).len() as int;
    let l1 = dec_str(a.o1 as int).len() as int;
    let l2 = dec_str(a.o2 as int).len() as int;
    assert(forall|p: int| 0 <= p < t.len() ==> (#[trigger] t[p]) != ':') by {
        assert(forall|p: int|
            0 <= p < t.len() ==> is_digit(#[trigger] t[p]) || t[p] == '.') by {
            assert(forall|p: int|
                0 <= p < t.len() && !((#[trigger] t[p]) == '.') ==> is_digit(t[p]));
        }
    }
    assert(!(exists|p: int| is_dc(t, p)));
    assert(1 <= l0 <= 3);
    assert(forall|j: int| 0 <= j < l0 ==> is_hex(#[trigger] t[j])) by {
        assert(forall|j: int| 0 <= j < l0 ==> t[j] == dec_str(a.o0 as int)[j]);
    }
    assert(t[l0] == '.');
    assert(!is_hex(t[l0]));
    lemma_hex_prefix_at(t, l0);
    assert(t.len() > l0);
    assert(colon_groups_ne(t) is None);
    assert(parse_v6(t) is None);
}

proof fn lemma_hex_prefix_chars(s: Seq<char>)
    ensures
        forall|j: int| 0 <= j < hex_prefix_len(s) ==> is_hex(#[trigger] s[j]),
        hex_prefix_len(s) <= s.len(),
    decreases s.len(),
{
    lemma_hex_prefix_nonneg(s);
    if s.len() > 0 && is_hex(s[0]) {
        let t = s.drop_first();
        lemma_hex_prefix_chars(t);
        lemma_hex_prefix_nonneg(t);
        assert(forall|j: int| 1 <= j < hex_prefix_len(s) ==> s[j] == t[j - 1]);
    }
}

/// A text that reads as colon-separated groups holds no double colon.
proof fn lemma_groups_no_dc(s: Seq<char>)
    requires
        colon_groups_ne(s) is Some,
    ensures
        forall|p: int| !is_dc(s, p),
    decreases s.len(),
{
    let k = hex_prefix_len(s);
    lemma_hex_prefix_chars(s);
    assert(1 <= k <= 4);
    if k == s.len() {
        assert(forall|p: int| is_dc(s, p) ==> s[p] == ':' && is_hex(s[p]));
    } else {
        assert(s[k] == ':' && k + 1 < s.len());
        let rest = s.subrange(k + 1, s.len() as int);
        lemma_groups_no_dc(rest);
        lemma_hex_prefix_chars(rest);
        assert(hex_prefix_len(rest) >= 1);
        assert(is_hex(rest[0]));
        assert(rest[0] == s[k + 1]);
        assert forall|p: int| !is_dc(s, p) by {
            if is_dc(s, p) {
                if p + 1 < k {
                    assert(is_hex(s[p]));
                } else if p + 1 == k {
                    assert(is_hex(s[p]));
                } else if p == k {
                    assert(is_hex(s[k + 1]));
                } else {
                    assert(p > k);
                    assert(s[p] == rest[p - k - 1]);
                    assert(s[p + 1] == rest[p - k]);
                    assert(is_dc(rest, p - k - 1));
                }
            }
        }
    }
}

/// Shape of a hex numeral: hex digits only, value recovered, short.
proof fn lemma_hex_str_digits(n: int)
    requires
        0 <= n,
    ensures
        hex_str(n).len() >= 1,
        forall|k: int| 0 <= k < hex_str(n).len() ==> is_hex(#[trigger] hex_str(n)[k]),
        group_val(hex_str(n)) == n,
        n < 16 ==> hex_str(n).len() == 1,
        n < 65536 ==> hex_str(n).len() <= 4,
    decreases n,
{
    if n < 16 {
        let s = hex_str(n);
        assert(s == seq![hex_digit(n)]);
        assert(s.drop_last() =~= Seq::<char>::empty());
        assert(group_val(Seq::<char>::empty()) == 0);
        assert(s.last() == hex_digit(n));
        assert(is_hex(hex_digit(n)) && hex_val(hex_digit(n)) == n);
    } else {
        lemma_hex_str_digits(n / 16);
        let p = hex_str(n / 16);
        let s = hex_str(n);
        assert(s == p.push(hex_digit(n % 16)));
        assert(s.drop_last() =~= p);
        assert(s.last() == hex_digit(n % 16));
        assert(is_hex(hex_digit(n % 16)) && hex_val(hex_digit(n % 16)) == n % 16);
        assert(group_val(s) == group_val(p) * 16 + n % 16);
        assert((n / 16) * 16 + n % 16 == n);
        if n < 65536 {
            assert(n / 16 < 4096);
            if n / 16 >= 16 {
                assert(hex_str(n / 16) == hex_str(n / 16 / 16).push(hex_digit(n / 16 % 16)));
                lemma_hex_str_digits(n / 16 / 16);
                assert(n / 16 / 16 < 256) by (nonlinear_arith)
                    requires
                        n < 65536,
                        0 <= n,
                ;
                if n / 16 / 16 >= 16 {
                    assert(hex_str(n / 16 / 16) == hex_str(n / 16 / 16 / 16).push(
                        hex_digit(n / 16 / 16 % 16),
                    ));
                    lemma_hex_str_digits(n / 16 / 16 / 16);
                    assert(n / 16 / 16 / 16 < 16) by (nonlinear_arith)
                        requires
                            n < 65536,
                            0 <= n,
                    ;
                }
            }
        }
        assert(forall|k: int| 0 <= k < s.len() ==> is_hex(#[trigger] s[k])) by {
            assert(forall|k: int| 0 <= k < p.len() ==> is_hex(#[trigger] p[k]));
            assert(forall|k: int| 0 <= k < s.len() - 1 ==> s[k] == p[k]);
            assert(s[s.len() - 1] == hex_digit(n % 16));
        }
    }
}

/// One more group at the front of a well-formed group list.
proof fn lemma_colon_groups_cons(x: u16, t: Seq<char>)
    requires
        t.len() > 0,
    ensures
        ({
            let s = hex_str(x as int) + seq![':'] + t;
            colon_groups_ne(s) == match colon_groups_ne(t) {
                Some(gs) => Some(seq![x] + gs),
                None => None::<Seq<u16>>,
            }
        }),
{
    lemma_hex_str_digits(x as int);
    let h = hex_str(x as int);
    let s = h + seq![':'] + t;
    let k = h.len() as int;
    assert(forall|j: int| 0 <= j < k ==> is_hex(#[trigger] s[j])) by {
        assert(forall|j: int| 0 <= j < k ==> s[j] == h[j]);
    }
    assert(s[k] == ':');
    assert(!is_hex(s[k]));
    lemma_hex_prefix_at(s, k);
    assert(1 <= k <= 4);
    assert(k + 1 < s.len());
    assert(s.subrange(0, k) =~= h);
    assert(s.subrange(k + 1, s.len() as int) =~= t);
    assert(group_val(s.subrange(0, k)) == x as int);
}

/// The group list of a single hex numeral.
proof fn lemma_colon_groups_single(x: u16)
    ensures
        colon_groups_ne(hex_str(x as int)) == Some(seq![x]),
{
    lemma_hex_str_digits(x as int);
    let s = hex_str(x as int);
    lemma_hex_prefix_at(s, s.len() as int);
    assert(group_val(s) == x as int);
}

/// The rendered colon-hex text, regrouped from the front.
#[verifier::spinoff_prover]
proof fn lemma_v6_text_assoc(b: V6Addr)
    ensures
        v6_text(b) == hex_str(b.g0 as int) + seq![':'] + (hex_str(b.g1 as int) + seq![':'] + (
        hex_str(b.g2 as int) + seq![':'] + (hex_str(b.g3 as int) + seq![':'] + (hex_str(
            b.g4 as int,
        ) + seq![':'] + (hex_str(b.g5 as int) + seq![':'] + (hex_str(b.g6 as int) + seq![':']
            + hex_str(b.g7 as int))))))),
{
    assert(v6_text(b) =~= hex_str(b.g0 as int) + seq![':'] + (hex_str(b.g1 as int) + seq![':'] + (
    hex_str(b.g2 as int) + seq![':'] + (hex_str(b.g3 as int) + seq![':'] + (hex_str(b.g4 as int)
        + seq![':'] + (hex_str(b.g5 as int) + seq![':'] + (hex_str(b.g6 as int) + seq![':']
        + hex_str(b.g7 as int))))))));
}

/// Round trip of the colon-hex form: the full eight-group text this library
/// renders parses back to exactly its address.
#[verifier::spinoff_prover]
#[verifier::rlimit(100)]
pub proof fn lemma_v6_round_trip(b: V6Addr)
    ensures
        parse_v6(v6_text(b)) == Some(b),
{
    let s7 = hex_str(b.g7 as int);
    let s6 = hex_str(b.g6 as int) + seq![':'] + s7;
    let s5 = hex_str(b.g5 as int) + seq![':'] + s6;
    let s4 = hex_str(b.g4 as int) + seq![':'] + s5;
    let s3 = hex_str(b.g3 as int) + seq![':'] + s4;
    let s2 = hex_str(b.g2 as int) + seq![':'] + s3;
    let s1 = hex_str(b.g1 as int) + seq![':'] + s2;
    let s0 = hex_str(b.g0 as int) + seq![':'] + s1;
    lemma_colon_groups_single(b.g7);
    let g7 = seq![b.g7];
    lemma_colon_groups_cons(b.g6, s7);
    let g6 = seq![b.g6] + g7;
    assert(colon_groups_ne(s6) == Some(g6));
    lemma_colon_groups_cons(b.g5, s6);
    let g5 = seq![b.g5] + g6;
    assert(colon_groups_ne(s5) == Some(g5));
    lemma_colon_groups_cons(b.g4, s5);
    let g4 = seq![b.g4] + g5;
    assert(colon_groups_ne(s4) == Some(g4));
    lemma_colon_groups_cons(b.g3, s4);
    let g3 = seq![b.g3] + g4;
    assert(colon_groups_ne(s3) == Some(g3));
    lemma_colon_groups_cons(b.g2, s3);
    let g2 = seq![b.g2] + g3;
    assert(colon_groups_ne(s2) == Some(g2));
    lemma_colon_groups_cons(b.g1, s2);
    let g1 = seq![b.g1] + g2;
    assert(colon_groups_ne(s1) == Some(g1));
    lemma_colon_groups_cons(b.g0, s1);
    let g0 = seq![b.g0] + g1;
    assert(colon_groups_ne(s0) == Some(g0));
    let gs = seq![b.g0, b.g1, b.g2, b.g3, b.g4, b.g5, b.g6, b.g7];
    assert(g0 =~= gs);
    lemma_v6_text_assoc(b);
    assert(v6_text(b) == s0);
    lemma_groups_no_dc(s0);
    assert(!(exists|p: int| is_dc(v6_text(b), p)));
    assert(gs.len() == 8);
    assert(v6_of_groups(gs) == b);
}

fn hex_literal(d: usize) -> (r: &'static str)
    requires
        d < 16,
    ensures
        r@ == seq![hex_digit(d as int)],
{
    if d < 10 {
        digit_literal(d)
    } else {
        proof {
            reveal_strlit("a");
            reveal_strlit("b");
            reveal_strlit("c");
            reveal_strlit("d");
            reveal_strlit("e");
            reveal_strlit("f");
        }
        let r = match d {
            10 => "a",
            11 => "b",
            12 => "c",
            13 => "d",
            14 => "e",
            _ => "f",
        };
        proof {
            assert(r@ =~= seq![hex_digit(d as int)]);
        }
        r
    }
}

/// The lowercase hex numeral of `n` as a string.
pub fn hex_string(n: usize) -> (r: String)
    ensures
        r@ == hex_str(n as int),
    decreases n,
{
    if n < 16 {
        hex_literal(n).to_owned()
    } else {
        let mut r = hex_string(n / 16);
        r.append(hex_literal(n % 16));
        proof {
            assert(hex_str((n / 16) as int).push(hex_digit(n as int % 16)) =~= hex_str(
                (n / 16) as int,
            ) + seq![hex_digit(n as int % 16)]);
        }
        r
    }
}

/// Renders the canonical text of an address.
pub fn format_ip(a: &IpAddress) -> (r: String)
    ensures
        r@ == ip_text(*a),
{
    proof {
        reveal_strlit(".");
        reveal_strlit(":");
    }
    match a {
        IpAddress::V4(x) => {
            let mut r = dec_string(x.o0 as usize);
            r.append(".");
            r.append(dec_string(x.o1 as usize).as_str());
            r.append(".");
            r.append(dec_string(x.o2 as usize).as_str());
            r.append(".");
            r.append(dec_string(x.o3 as usize).as_str());
            proof {
                assert("."@ =~= seq!['.']);
                assert(r@ =~= v4_text(*x));
            }
            r
        },
        IpAddress::V6(x) => {
            let mut r = hex_string(x.g0 as usize);
            r.append(":");
            r.append(hex_string(x.g1 as usize).as_str());
            r.append(":");
            r.append(hex_string(x.g2 as usize).as_str());
            r.append(":");
            r.append(hex_string(x.g3 as usize).as_str());
            r.append(":");
            r.append(hex_string(x.g4 as usize).as_str());
            r.append(":");
            r.append(hex_string(x.g5 as usize).as_str());
            r.append(":");
            r.append(hex_string(x.g6 as usize).as_str());
            r.append(":");
            r.append(hex_string(x.g7 as usize).as_str());
            proof {
                assert(":"@ =~= seq![':']);
                assert(r@ =~= v6_text(*x));
            }
            r
        },
    }
}

} // verus!
