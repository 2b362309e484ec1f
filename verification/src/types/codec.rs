//! Line handling for the wire protocol: CRLF splitting, decimal text,
//! and the character-level helpers the codec is built on.
use vstd::prelude::*;

use crate::types::redis_type::{RedisType, ValueView};
use crate::types::ErrorView;
use vstd::string::StrSliceExecFns;

verus! {

/// The line terminator of the wire protocol.
pub open spec fn crlf() -> Seq<char> {
    seq!['\r', '\n']
}

/// True when the text contains no CRLF pair.
pub open spec fn crlf_free(s: Seq<char>) -> bool {
    forall|i: int| 0 <= i < s.len() - 1 ==> !(#[trigger] s[i] == '\r' && s[i + 1] == '\n')
}

/// The text split on every CRLF pair, scanning left to right; always at
/// least one piece, and a trailing CRLF yields a trailing empty piece.
pub open spec fn split_crlf(s: Seq<char>) -> Seq<Seq<char>>
    decreases s.len(),
{
    if s.len() == 0 {
        seq![Seq::<char>::empty()]
    } else if s.len() >= 2 && s[0] == '\r' && s[1] == '\n' {
        seq![Seq::<char>::empty()].add(split_crlf(s.skip(2)))
    } else {
        let rest = split_crlf(s.skip(1));
        seq![seq![s[0]].add(rest[0])].add(rest.skip(1))
    }
}

/// Splitting yields at least one piece.
pub proof fn lemma_split_crlf_len(s: Seq<char>)
    ensures
        split_crlf(s).len() >= 1,
    decreases s.len(),
{
    if s.len() == 0 {
    } else if s.len() >= 2 && s[0] == '\r' && s[1] == '\n' {
        lemma_split_crlf_len(s.skip(2));
    } else {
        lemma_split_crlf_len(s.skip(1));
    }
}

/// A CRLF-free piece followed by CRLF splits off as one whole line.
pub proof fn lemma_split_crlf_line(a: Seq<char>, rest: Seq<char>)
    requires
        crlf_free(a),
    ensures
        split_crlf(a + crlf() + rest) == seq![a].add(split_crlf(rest)),
    decreases a.len(),
{
    let s = a + crlf() + rest;
    if a.len() == 0 {
        assert(s =~= crlf() + rest);
        assert((crlf() + rest).skip(2) =~= rest);
        assert(a =~= Seq::<char>::empty());
        assert(seq![a] =~= seq![Seq::<char>::empty()]);
    } else {
        assert(s[0] == a[0]);
        if a.len() >= 2 {
            assert(s[1] == a[1]);
            assert(!(s[0] == '\r' && s[1] == '\n'));
        } else {
            assert(s[1] == '\r');
            assert(!(s[0] == '\r' && s[1] == '\n'));
        }
        let a1 = a.skip(1);
        assert(crlf_free(a1));
        assert(s.skip(1) =~= a1 + crlf() + rest);
        lemma_split_crlf_line(a1, rest);
        let r = split_crlf(s.skip(1));
        assert(r == seq![a1].add(split_crlf(rest)));
        assert(r[0] == a1);
        assert(seq![s[0]].add(r[0]) =~= a);
        assert(r.skip(1) =~= split_crlf(rest));
        assert(split_crlf(s) =~= seq![a].add(split_crlf(rest)));
    }
}

/// The text with every NUL character removed.
pub open spec fn strip_nul(s: Seq<char>) -> Seq<char>
    decreases s.len(),
{
    if s.len() == 0 {
        Seq::empty()
    } else if s.last() == '\0' {
        strip_nul(s.drop_last())
    } else {
        strip_nul(s.drop_last()).push(s.last())
    }
}

/// The characters of a string slice, as a vector.
pub fn chars_of(s: &str) -> (v: Vec<char>)
    ensures
        v@ == s@,
{
    let n = s.unicode_len();
    let mut v: Vec<char> = Vec::new();
    let mut i: usize = 0;
    while i < n
        invariant
            i <= n,
            n == s@.len(),
            v@ =~= s@.subrange(0, i as int),
        decreases n - i,
    {
        v.push(s.get_char(i));
        i = i + 1;
    }
    proof {
        assert(v@ =~= s@);
    }
    v
}

/// Relies on `core::iter::Iterator::collect` for `String`: collecting
/// copied characters yields the string of exactly those characters.
#[verifier::external_body]
pub fn string_from_chars(v: &Vec<char>) -> (s: String)
    ensures
        s@ == v@,
{
    v.iter().collect()
}

/// Splits a character vector on every CRLF pair.
#[verifier::spinoff_prover]
#[verifier::rlimit(50)]
pub fn split_crlf_exec(v: &Vec<char>) -> (parts: Vec<Vec<char>>)
    ensures
        parts@.len() == split_crlf(v@).len(),
        forall|k: int| 0 <= k < parts@.len() ==> #[trigger] parts@[k]@ == split_crlf(v@)[k],
{
    let mut parts: Vec<Vec<char>> = Vec::new();
    let mut cur: Vec<char> = Vec::new();
    let mut i: usize = 0;
    proof {
        lemma_split_crlf_len(v@);
        assert(v@.skip(0) =~= v@);
        let w = split_crlf(v@);
        assert(w =~= parts@.map_values(|p: Vec<char>| p@) + seq![cur@ + w[0]] + w.skip(1));
    }
    while i < v.len()
        invariant
            i <= v@.len(),
            split_crlf(v@.skip(i as int)).len() >= 1,
            split_crlf(v@) == parts@.map_values(|p: Vec<char>| p@) + seq![
                cur@ + split_crlf(v@.skip(i as int))[0],
            ] + split_crlf(v@.skip(i as int)).skip(1),
        decreases v@.len() - i,
    {
        let ghost t = v@.skip(i as int);
        proof {
            assert(t.len() == v@.len() - i);
            assert(t[0] == v@[i as int]);
            if t.len() >= 2 {
                assert(t[1] == v@[i as int + 1]);
            }
        }
        if v[i] == '\r' && i + 1 < v.len() && v[i + 1] == '\n' {
            proof {
                let t2 = v@.skip(i as int + 2);
                assert(t.skip(2) =~= t2);
                lemma_split_crlf_len(t2);
                assert(split_crlf(t) == seq![Seq::<char>::empty()].add(split_crlf(t2)));
                assert(split_crlf(t)[0] =~= Seq::<char>::empty());
                assert(cur@ + split_crlf(t)[0] =~= cur@);
                assert(split_crlf(t).skip(1) =~= split_crlf(t2));
                let pv = parts@.map_values(|p: Vec<char>| p@);
                let pv2 = parts@.push(cur).map_values(|p: Vec<char>| p@);
                assert(pv2 =~= pv.push(cur@));
                assert(split_crlf(v@) =~= pv2 + seq![Seq::<char>::empty() + split_crlf(t2)[0]]
                    + split_crlf(t2).skip(1));
            }
            parts.push(cur);
            cur = Vec::new();
            i = i + 2;
        } else {
            proof {
                let t1 = v@.skip(i as int + 1);
                assert(t.skip(1) =~= t1);
                lemma_split_crlf_len(t1);
                let r = split_crlf(t1);
                assert(split_crlf(t) == seq![seq![t[0]].add(r[0])].add(r.skip(1)));
                assert(split_crlf(t)[0] =~= seq![t[0]].add(r[0]));
                assert(split_crlf(t).skip(1) =~= r.skip(1));
                assert(cur@ + split_crlf(t)[0] =~= cur@.push(t[0]) + r[0]);
                assert(split_crlf(v@) =~= parts@.map_values(|p: Vec<char>| p@) + seq![
                    cur@.push(t[0]) + r[0],
                ] + r.skip(1));
            }
            let c = v[i];
            cur.push(c);
            i = i + 1;
        }
    }
    proof {
        assert(v@.skip(i as int) =~= Seq::<char>::empty());
        assert(split_crlf(v@.skip(i as int)) == seq![Seq::<char>::empty()]);
        assert(cur@ + split_crlf(v@.skip(i as int))[0] =~= cur@);
        assert(split_crlf(v@) =~= parts@.map_values(|p: Vec<char>| p@).push(cur@));
    }
    parts.push(cur);
    proof {
        let w = split_crlf(v@);
        assert(forall|k: int|
            0 <= k < parts@.len() - 1 ==> #[trigger] parts@[k]@ == parts@.drop_last().map_values(
                |p: Vec<char>| p@,
            )[k]);
        assert(parts@.drop_last() =~= parts@.subrange(0, parts@.len() - 1));
        assert(forall|k: int| 0 <= k < parts@.len() ==> #[trigger] parts@[k]@ == w[k]);
    }
    parts
}

/// The decimal digit character for a value 0 through 9.
pub open spec fn dec_digit(n: int) -> char {
    if n == 0 { '0' }
    else if n == 1 { '1' }
    else if n == 2 { '2' }
    else if n == 3 { '3' }
    else if n == 4 { '4' }
    else if n == 5 { '5' }
    else if n == 6 { '6' }
    else if n == 7 { '7' }
    else if n == 8 { '8' }
    else { '9' }
}

/// The numeric value of a decimal digit character, or -1 for any other.
pub open spec fn digit_val(c: char) -> int {
    if c == '0' { 0 }
    else if c == '1' { 1 }
    else if c == '2' { 2 }
    else if c == '3' { 3 }
    else if c == '4' { 4 }
    else if c == '5' { 5 }
    else if c == '6' { 6 }
    else if c == '7' { 7 }
    else if c == '8' { 8 }
    else if c == '9' { 9 }
    else { -1 }
}

pub open spec fn is_dec_digit(c: char) -> bool {
    digit_val(c) >= 0
}

/// The canonical decimal text of a natural number, most significant
/// digit first, without leading zeros.
pub open spec fn dec_of_nat(n: nat) -> Seq<char>
    decreases n,
{
    if n < 10 {
        seq![dec_digit(n as int)]
    } else {
        dec_of_nat(n / 10).push(dec_digit((n % 10) as int))
    }
}

/// The canonical decimal text of an integer: a minus sign for negative
/// values, then the magnitude.
pub open spec fn dec_of_int(i: int) -> Seq<char> {
    if i >= 0 {
        dec_of_nat(i as nat)
    } else {
        seq!['-'].add(dec_of_nat((-i) as nat))
    }
}

/// True when the text is one or more decimal digits.
pub open spec fn all_digits(s: Seq<char>) -> bool {
    s.len() > 0 && forall|i: int| 0 <= i < s.len() ==> is_dec_digit(#[trigger] s[i])
}

/// The numeric value of a digit string, most significant digit first.
pub open spec fn dec_val(s: Seq<char>) -> int
    decreases s.len(),
{
    if s.len() == 0 {
        0
    } else {
        dec_val(s.drop_last()) * 10 + digit_val(s.last())
    }
}

/// The integer a piece of text denotes under base-10 signed syntax: an
/// optional sign, then digits; `None` when the text has any other shape.
pub open spec fn spec_parse_int(s: Seq<char>) -> Option<int> {
    if s.len() > 0 && (s[0] == '+' || s[0] == '-') {
        if all_digits(s.skip(1)) {
            if s[0] == '-' {
                Some(-dec_val(s.skip(1)))
            } else {
                Some(dec_val(s.skip(1)))
            }
        } else {
            None
        }
    } else if all_digits(s) {
        Some(dec_val(s))
    } else {
        None
    }
}

/// The canonical decimal text of a natural number is all digits and
/// denotes that number.
pub proof fn lemma_dec_of_nat_val(n: nat)
    ensures
        all_digits(dec_of_nat(n)),
        dec_val(dec_of_nat(n)) == n,
        dec_of_nat(n).len() >= 1,
    decreases n,
{
    if n < 10 {
        let d = dec_of_nat(n);
        assert(d == seq![dec_digit(n as int)]);
        assert(d.drop_last() =~= Seq::<char>::empty());
        assert(dec_val(d.drop_last()) == 0);
        assert(d.last() == dec_digit(n as int));
        assert(digit_val(dec_digit(n as int)) == n);
        assert(dec_val(d) == 0 * 10 + n);
    } else {
        lemma_dec_of_nat_val(n / 10);
        let d = dec_of_nat(n);
        let p = dec_of_nat(n / 10);
        let m = (n % 10) as int;
        assert(0 <= m < 10);
        assert(digit_val(dec_digit(m)) == m);
        assert(d == p.push(dec_digit(m)));
        assert(d.drop_last() =~= p);
        assert(d.last() == dec_digit(m));
        assert(dec_val(d) == dec_val(d.drop_last()) * 10 + digit_val(d.last()));
        assert(dec_val(d.drop_last()) == dec_val(p));
        assert(dec_val(p) == n / 10);
        assert(dec_val(d) == ((n / 10) as int) * 10 + m);
        vstd::arithmetic::div_mod::lemma_fundamental_div_mod(n as int, 10);
        assert(n as int == 10 * ((n as int) / 10) + (n as int) % 10);
        assert((n as int) / 10 == (n / 10) as int);
        assert((n as int) % 10 == m);
        assert(10 * ((n as int) / 10) == ((n / 10) as int) * 10);
        assert(dec_val(d) == n);
        assert(forall|i: int| 0 <= i < p.len() ==> d[i] == #[trigger] p[i]);
    }
}

/// Digit strings have nonnegative value.
pub proof fn lemma_dec_val_nonneg(s: Seq<char>)
    requires
        forall|i: int| 0 <= i < s.len() ==> is_dec_digit(#[trigger] s[i]),
    ensures
        dec_val(s) >= 0,
    decreases s.len(),
{
    if s.len() > 0 {
        assert(forall|i: int|
            0 <= i < s.drop_last().len() ==> is_dec_digit(#[trigger] s.drop_last()[i]));
        lemma_dec_val_nonneg(s.drop_last());
    }
}

/// Parsing the canonical decimal text of an integer gives it back.
pub proof fn lemma_parse_dec_of_int(i: int)
    ensures
        spec_parse_int(dec_of_int(i)) == Some(i),
{
    if i >= 0 {
        lemma_dec_of_nat_val(i as nat);
        let d = dec_of_nat(i as nat);
        assert(is_dec_digit(d[0]));
        assert(d[0] != '+' && d[0] != '-');
    } else {
        lemma_dec_of_nat_val((-i) as nat);
        let d = dec_of_nat((-i) as nat);
        let s = seq!['-'].add(d);
        assert(s[0] == '-');
        assert(s.skip(1) =~= d);
    }
}

/// Every character of a canonical decimal text is a digit or the sign,
/// so the text holds no CRLF pair.
pub proof fn lemma_dec_crlf_free(i: int)
    ensures
        crlf_free(dec_of_int(i)),
        dec_of_int(i).len() >= 1,
        dec_of_int(i)[0] != '*',
{
    lemma_dec_digits_plain(if i >= 0 { i as nat } else { (-i) as nat });
    if i >= 0 {
        lemma_dec_of_nat_val(i as nat);
    } else {
        lemma_dec_of_nat_val((-i) as nat);
    }
}

proof fn lemma_dec_digits_plain(n: nat)
    ensures
        forall|k: int|
            0 <= k < dec_of_nat(n).len() ==> #[trigger] dec_of_nat(n)[k] != '\r'
                && dec_of_nat(n)[k] != '\n' && dec_of_nat(n)[k] != '*',
    decreases n,
{
    if n < 10 {
    } else {
        lemma_dec_digits_plain(n / 10);
        let d = dec_of_nat(n);
        let p = dec_of_nat(n / 10);
        assert(forall|k: int| 0 <= k < p.len() ==> d[k] == #[trigger] p[k]);
        assert(d[d.len() - 1] == dec_digit((n % 10) as int));
    }
}

/// The digit character of a value below ten.
fn dec_digit_exec(d: u128) -> (c: char)
    requires
        d < 10,
    ensures
        c == dec_digit(d as int),
{
    match d {
        0 => '0',
        1 => '1',
        2 => '2',
        3 => '3',
        4 => '4',
        5 => '5',
        6 => '6',
        7 => '7',
        8 => '8',
        _ => '9',
    }
}

/// The numeric value of a digit character, if it is one.
fn digit_val_exec(c: char) -> (r: Option<u128>)
    ensures
        match r {
            Some(d) => digit_val(c) == d as int && d < 10,
            None => digit_val(c) == -1,
        },
{
    match c {
        '0' => Some(0),
        '1' => Some(1),
        '2' => Some(2),
        '3' => Some(3),
        '4' => Some(4),
        '5' => Some(5),
        '6' => Some(6),
        '7' => Some(7),
        '8' => Some(8),
        '9' => Some(9),
        _ => None,
    }
}

/// The canonical decimal text of a 128-bit signed integer.
#[verifier::spinoff_prover]
#[verifier::rlimit(50)]
pub fn format_i128(i: i128) -> (s: String)
    ensures
        s@ == dec_of_int(i as int),
{
    let neg = i < 0;
    let mut m: u128 = if i >= 0 {
        i as u128
    } else {
        (-(i + 1)) as u128 + 1
    };
    let ghost m0 = m;
    proof {
        if i >= 0 {
            assert(m0 == i as int);
        } else {
            assert(m0 == -(i as int));
        }
    }
    let mut digits: Vec<char> = Vec::new();
    while m >= 10
        invariant
            dec_of_nat(m0 as nat) =~= dec_of_nat(m as nat) + digits@.reverse(),
        decreases m,
    {
        let d = m % 10;
        let ghost before = digits@;
        digits.push(dec_digit_exec(d));
        m = m / 10;
        proof {
            assert(digits@.drop_last() =~= before);
            assert(digits@.reverse() =~= seq![dec_digit(d as int)] + before.reverse());
            assert(dec_of_nat((m0 as nat)) =~= dec_of_nat(m as nat).push(dec_digit(d as int))
                + before.reverse());
        }
    }
    let ghost before = digits@;
    digits.push(dec_digit_exec(m));
    proof {
        assert(digits@.drop_last() =~= before);
        assert(digits@.reverse() =~= seq![dec_digit(m as int)] + before.reverse());
        assert(dec_of_nat(m as nat) =~= seq![dec_digit(m as int)]);
        assert(dec_of_nat(m0 as nat) =~= digits@.reverse());
    }
    let mut out: Vec<char> = Vec::new();
    if neg {
        out.push('-');
    }
    let ghost sign: Seq<char> = if neg { seq!['-'] } else { Seq::empty() };
    let n = digits.len();
    let mut k: usize = 0;
    while k < n
        invariant
            k <= n,
            n == digits@.len(),
            sign == (if neg { seq!['-'] } else { Seq::<char>::empty() }),
            out@ =~= sign + digits@.reverse().subrange(0, k as int),
        decreases n - k,
    {
        out.push(digits[n - 1 - k]);
        proof {
            assert(digits@.reverse()[k as int] == digits@[n - 1 - k as int]);
            assert(digits@.reverse().subrange(0, k as int + 1) =~= digits@.reverse().subrange(
                0,
                k as int,
            ).push(digits@.reverse()[k as int]));
        }
        k = k + 1;
    }
    proof {
        assert(digits@.reverse().subrange(0, n as int) =~= digits@.reverse());
        assert(out@ =~= dec_of_int(i as int));
    }
    string_from_chars(&out)
}

/// Reads a base-10 signed integer from the characters of `v` from
/// position `from` on: exactly the text's denoted value when it fits in
/// 128 signed bits, and a failure otherwise.
#[verifier::spinoff_prover]
#[verifier::rlimit(50)]
pub fn parse_i128_chars(v: &Vec<char>, from: usize) -> (r: Option<i128>)
    requires
        from <= v@.len(),
    ensures
        match r {
            Some(n) => spec_parse_int(v@.skip(from as int)) == Some(n as int),
            None => match spec_parse_int(v@.skip(from as int)) {
                Some(w) => w < i128::MIN || w > i128::MAX,
                None => true,
            },
        },
{
    let ghost s = v@.skip(from as int);
    let len = v.len();
    if from == len {
        return None;
    }
    let (neg, mut j): (bool, usize) = if v[from] == '-' {
        (true, from + 1)
    } else if v[from] == '+' {
        (false, from + 1)
    } else {
        (false, from)
    };
    let ghost digs = v@.skip(j as int);
    proof {
        assert(s[0] == v@[from as int]);
        if v@[from as int] == '-' || v@[from as int] == '+' {
            assert(digs =~= s.skip(1));
        } else {
            assert(digs =~= s);
        }
    }
    if j == len {
        proof {
            assert(digs.len() == 0);
            assert(!all_digits(digs));
        }
        return None;
    }
    let mut acc: u128 = 0;
    let mut overflow = false;
    let ghost start = j;
    while j < len
        invariant
            start <= j <= len,
            len == v@.len(),
            start < len,
            from <= v@.len(),
            s == v@.skip(from as int),
            digs == v@.skip(start as int),
            s.len() > 0,
            (s[0] == '-' || s[0] == '+') ==> (start == from + 1 && digs =~= s.skip(1) && neg == (
            s[0] == '-')),
            !(s[0] == '-' || s[0] == '+') ==> (start == from && digs =~= s && !neg),
            forall|t: int| 0 <= t < j - start ==> is_dec_digit(#[trigger] digs[t]),
            !overflow ==> acc as int == dec_val(digs.subrange(0, j - start)),
            overflow ==> dec_val(digs.subrange(0, j - start)) > u128::MAX,
            overflow ==> forall|t: int|
                0 <= t < digs.len() ==> is_dec_digit(#[trigger] digs[t]) || t >= j - start,
        decreases len - j,
    {
        proof {
            assert(digs[j - start] == v@[j as int]);
        }
        let d = match digit_val_exec(v[j]) {
            Some(d) => d,
            None => {
                proof {
                    assert(!is_dec_digit(digs[j - start]));
                    assert(!all_digits(digs));
                }
                return None;
            },
        };
        let ghost p = digs.subrange(0, j - start);
        let ghost q = digs.subrange(0, j + 1 - start);
        proof {
            assert(q.drop_last() =~= p);
            assert(q.last() == digs[j - start]);
            assert(dec_val(q) == dec_val(p) * 10 + d);
        }
        if !overflow {
            match acc.checked_mul(10) {
                Some(a10) => match a10.checked_add(d) {
                    Some(a) => {
                        acc = a;
                    },
                    None => {
                        overflow = true;
                    },
                },
                None => {
                    overflow = true;
                },
            }
        }
        j = j + 1;
    }
    proof {
        assert(digs.subrange(0, len - start) =~= digs);
        assert(all_digits(digs));
    }
    if overflow {
        proof {
            lemma_dec_val_nonneg(digs);
            assert(dec_val(digs) > u128::MAX >= i128::MAX);
            if neg {
                assert(-dec_val(digs) < i128::MIN);
            }
        }
        return None;
    }
    let max_magnitude: u128 = if neg {
        i128::MAX as u128 + 1
    } else {
        i128::MAX as u128
    };
    if acc > max_magnitude {
        return None;
    }
    if neg {
        if acc == i128::MAX as u128 + 1 {
            Some(i128::MIN)
        } else {
            Some(-(acc as i128))
        }
    } else {
        Some(acc as i128)
    }
}

/// The single wire line of a non-array value, without its terminator.
pub open spec fn scalar_line(v: ValueView) -> Seq<char> {
    match v {
        ValueView::Str(t) => seq!['+'].add(t),
        ValueView::Int(i) => seq![':'].add(dec_of_int(i)),
        ValueView::Fail(t) => seq!['-'].add(t),
        ValueView::Null => seq!['$', '-', '1'],
        ValueView::Chan => seq!['+', 'O', 'K'],
        ValueView::Okay => seq!['+', 'O', 'K'],
        ValueView::Arr(_) => Seq::empty(),
    }
}

/// The full wire encoding of a value. A non-array value is its line plus
/// CRLF; an array is a `*`-tagged count line, then each element's
/// encoding followed by one more CRLF (so every element terminator is
/// doubled on the wire).
pub open spec fn spec_serialize(v: ValueView) -> Seq<char>
    decreases v,
    via spec_serialize_decreases
{
    match v {
        ValueView::Arr(elems) => seq!['*'].add(dec_of_int(elems.len() as int)).add(crlf()).add(
            spec_serialize_elems(elems),
        ),
        _ => scalar_line(v).add(crlf()),
    }
}

#[via_fn]
proof fn spec_serialize_decreases(v: ValueView) {
    match v {
        ValueView::Arr(elems) => {
            assert(decreases_to!(v => v->Arr_0));
        },
        _ => {},
    }
}

/// The concatenated encodings of array elements, each followed by one
/// extra CRLF.
pub open spec fn spec_serialize_elems(elems: Seq<ValueView>) -> Seq<char>
    decreases elems,
    via spec_serialize_elems_decreases
{
    if elems.len() == 0 {
        Seq::empty()
    } else {
        spec_serialize(elems[0]).add(crlf()).add(spec_serialize_elems(elems.skip(1)))
    }
}

#[via_fn]
proof fn spec_serialize_elems_decreases(elems: Seq<ValueView>) {
    if elems.len() > 0 {
        vstd::seq::axiom_seq_index_decreases(elems, 0);
        vstd::seq::axiom_seq_subrange_decreases(elems, 1, elems.len() as int);
        assert(elems.skip(1) == elems.subrange(1, elems.len() as int));
    }
}

/// Appending one element to an array appends its encoding and an extra
/// terminator to the wire text.
pub proof fn lemma_serialize_elems_push(elems: Seq<ValueView>, v: ValueView)
    ensures
        spec_serialize_elems(elems.push(v)) == spec_serialize_elems(elems) + spec_serialize(v)
            + crlf(),
    decreases elems.len(),
{
    if elems.len() == 0 {
        assert(elems.push(v)[0] == v);
        assert(elems.push(v).skip(1) =~= Seq::<ValueView>::empty());
        assert(spec_serialize_elems(Seq::<ValueView>::empty()) == Seq::<char>::empty());
        assert(spec_serialize_elems(elems.push(v)) == spec_serialize(v) + crlf()
            + spec_serialize_elems(Seq::<ValueView>::empty()));
        assert(elems =~= Seq::<ValueView>::empty());
        assert(spec_serialize_elems(elems.push(v)) =~= spec_serialize_elems(elems)
            + spec_serialize(v) + crlf());
    } else {
        let e = elems.push(v);
        assert(e[0] == elems[0]);
        assert(e.skip(1) =~= elems.skip(1).push(v));
        lemma_serialize_elems_push(elems.skip(1), v);
        assert(spec_serialize_elems(e) =~= spec_serialize_elems(elems) + spec_serialize(v)
            + crlf());
    }
}

/// The text prefixed to an unrecognized line in the error it produces.
pub open spec fn unknown_prefix() -> Seq<char> {
    seq!['U', 'n', 'k', 'n', 'o', 'w', 'n', ' ', 't', 'y', 'p', 'e', ':', ' ']
}

/// What one wire line denotes, read on its own. `orig` is the full text
/// the line came from, quoted in the error for an unrecognized tag.
pub open spec fn parse_scalar_line(l: Seq<char>, orig: Seq<char>) -> Result<ValueView, ErrorView> {
    if l.len() == 0 {
        Err(ErrorView::ParseFailed)
    } else if l[0] == '+' {
        Ok(ValueView::Str(l.skip(1)))
    } else if l[0] == ':' {
        match spec_parse_int(l.skip(1)) {
            Some(n) => if i128::MIN <= n <= i128::MAX {
                Ok(ValueView::Int(n))
            } else {
                Err(ErrorView::ParseFailed)
            },
            None => Err(ErrorView::ParseFailed),
        }
    } else if l[0] == '*' {
        Ok(ValueView::Arr(Seq::empty()))
    } else if l == seq!['$', '-', '1'] {
        Ok(ValueView::Null)
    } else if l[0] == '-' {
        Ok(ValueView::Fail(l.skip(1)))
    } else {
        Ok(ValueView::Fail(unknown_prefix() + orig))
    }
}

/// The elements denoted by the lines after an array's count line: empty
/// lines are passed over (they arise from the doubled terminators), and
/// every other line is read as one element.
pub open spec fn parse_elements(lines: Seq<Seq<char>>) -> Result<Seq<ValueView>, ErrorView>
    decreases lines.len(),
{
    if lines.len() == 0 {
        Ok(Seq::empty())
    } else if lines[0].len() == 0 {
        parse_elements(lines.skip(1))
    } else {
        match parse_scalar_line(lines[0], lines[0]) {
            Ok(v) => match parse_elements(lines.skip(1)) {
                Ok(vs) => Ok(seq![v].add(vs)),
                Err(e) => Err(e),
            },
            Err(e) => Err(e),
        }
    }
}

/// What a whole wire text denotes: split on CRLF; a `*`-tagged first
/// line opens an array whose elements are the remaining non-empty
/// lines, read one line each; any other first line is read on its own.
pub open spec fn spec_parse(s: Seq<char>) -> Result<ValueView, ErrorView> {
    let lines = split_crlf(s);
    let l0 = lines[0];
    if l0.len() > 0 && l0[0] == '*' {
        match parse_elements(lines.skip(1)) {
            Ok(vs) => Ok(ValueView::Arr(vs)),
            Err(e) => Err(e),
        }
    } else {
        parse_scalar_line(l0, s)
    }
}

/// The characters of `l` from position `from` on.
pub fn tail_chars(l: &Vec<char>, from: usize) -> (v: Vec<char>)
    requires
        from <= l@.len(),
    ensures
        v@ == l@.skip(from as int),
{
    let mut v: Vec<char> = Vec::new();
    let mut i: usize = from;
    while i < l.len()
        invariant
            from <= i <= l@.len(),
            v@ =~= l@.subrange(from as int, i as int),
        decreases l@.len() - i,
    {
        v.push(l[i]);
        i = i + 1;
    }
    proof {
        assert(v@ =~= l@.skip(from as int));
    }
    v
}

/// Reads one wire line as a value, never looking past the line. `orig`
/// is the full text the line came from, quoted for an unrecognized tag.
#[verifier::spinoff_prover]
#[verifier::rlimit(50)]
pub fn parse_scalar_exec(l: &Vec<char>, orig: &Vec<char>) -> (r: Result<RedisType, crate::types::RedisError>)
    ensures
        (r is Ok) == (parse_scalar_line(l@, orig@) is Ok),
        r matches Ok(v) ==> parse_scalar_line(l@, orig@) == Ok::<ValueView, ErrorView>(
            v.deep_view(),
        ),
        r matches Err(e) ==> parse_scalar_line(l@, orig@) == Err::<ValueView, ErrorView>(
            e.deep_view(),
        ),
{
    if l.len() == 0 {
        return Err(crate::types::RedisError::ParseFailed);
    }
    let c0 = l[0];
    if c0 == '+' {
        let rest = tail_chars(l, 1);
        Ok(RedisType::String(string_from_chars(&rest)))
    } else if c0 == ':' {
        match parse_i128_chars(l, 1) {
            Some(n) => Ok(RedisType::Integer(n)),
            None => Err(crate::types::RedisError::ParseFailed),
        }
    } else if c0 == '*' {
        let elems: Vec<RedisType> = Vec::new();
        proof {
            assert(crate::types::redis_type::shapes_of(elems@) =~= Seq::<ValueView>::empty());
        }
        Ok(RedisType::Array(elems))
    } else if l.len() == 3 && c0 == '$' && l[1] == '-' && l[2] == '1' {
        proof {
            assert(l@ =~= seq!['$', '-', '1']);
        }
        Ok(RedisType::Null)
    } else if c0 == '-' {
        proof {
            assert(l@ != seq!['$', '-', '1']);
        }
        let rest = tail_chars(l, 1);
        Ok(RedisType::Error(string_from_chars(&rest)))
    } else {
        proof {
            if l@ == seq!['$', '-', '1'] {
                assert(l@.len() == 3 && l@[0] == '$' && l@[1] == '-' && l@[2] == '1');
                assert(false);
            }
            reveal_strlit("Unknown type: ");
            assert("Unknown type: "@ =~= unknown_prefix());
        }
        let mut msg = String::new();
        msg.append("Unknown type: ");
        let o = string_from_chars(orig);
        msg.append(o.as_str());
        proof {
            assert(msg@ =~= unknown_prefix() + orig@);
        }
        Ok(RedisType::Error(msg))
    }
}

/// A value whose wire line survives the line-based parse on its own:
/// text free of the terminator pair, an integer within 128 signed bits,
/// or the null marker.
pub open spec fn line_safe(v: ValueView) -> bool {
    match v {
        ValueView::Str(t) => crlf_free(t),
        ValueView::Int(i) => i128::MIN <= i <= i128::MAX,
        ValueView::Null => true,
        _ => false,
    }
}

/// A value whose whole wire text parses back to it: a line-safe scalar,
/// or an array of line-safe scalars. Nesting does not survive the
/// line-based parse, nor do the `Okay`, `Chan` and `Fail` values, whose
/// encodings coincide with other values'.
pub open spec fn wire_safe(v: ValueView) -> bool {
    match v {
        ValueView::Arr(elems) => forall|i: int|
            0 <= i < elems.len() ==> line_safe(#[trigger] elems[i]),
        _ => line_safe(v),
    }
}

/// The line of a line-safe value holds no terminator pair, is not
/// empty, and does not open an array.
proof fn lemma_scalar_line_plain(v: ValueView)
    requires
        line_safe(v),
    ensures
        crlf_free(scalar_line(v)),
        scalar_line(v).len() >= 1,
        scalar_line(v)[0] != '*',
{
    let l = scalar_line(v);
    match v {
        ValueView::Str(t) => {
            assert forall|i: int| 0 <= i < l.len() - 1 implies !(#[trigger] l[i] == '\r' && l[i
                + 1] == '\n') by {
                if i > 0 {
                    assert(l[i] == t[i - 1] && l[i + 1] == t[i]);
                }
            }
        },
        ValueView::Int(n) => {
            lemma_dec_crlf_free(n);
            let d = dec_of_int(n);
            assert forall|i: int| 0 <= i < l.len() - 1 implies !(#[trigger] l[i] == '\r' && l[i
                + 1] == '\n') by {
                if i > 0 {
                    assert(l[i] == d[i - 1] && l[i + 1] == d[i]);
                }
            }
        },
        ValueView::Null => {
            assert(l == seq!['$', '-', '1']);
            assert(crlf_free(l)) by {
                assert(l[0] == '$' && l[1] == '-' && l[2] == '1');
            }
        },
        _ => {},
    }
}

/// Reading back the line of a line-safe value gives the value, whatever
/// text the line is quoted from.
proof fn lemma_parse_scalar_line(v: ValueView, orig: Seq<char>)
    requires
        line_safe(v),
    ensures
        parse_scalar_line(scalar_line(v), orig) == Ok::<ValueView, ErrorView>(v),
{
    let l = scalar_line(v);
    match v {
        ValueView::Str(t) => {
            assert(l[0] == '+');
            assert(l.skip(1) =~= t);
        },
        ValueView::Int(n) => {
            assert(l[0] == ':');
            assert(l.skip(1) =~= dec_of_int(n));
            lemma_parse_dec_of_int(n);
        },
        ValueView::Null => {
            assert(l == seq!['$', '-', '1']);
            assert(l[0] == '$');
            assert(l[0] != '+' && l[0] != ':' && l[0] != '*');
        },
        _ => {},
    }
}

/// The wire text of array elements splits into each element's line
/// followed by one empty line, and reading those lines back gives the
/// elements.
proof fn lemma_elems_round_trip(elems: Seq<ValueView>)
    requires
        forall|i: int| 0 <= i < elems.len() ==> line_safe(#[trigger] elems[i]),
    ensures
        parse_elements(split_crlf(spec_serialize_elems(elems))) == Ok::<Seq<ValueView>, ErrorView>(
            elems,
        ),
    decreases elems.len(),
{
    if elems.len() == 0 {
        assert(spec_serialize_elems(elems) == Seq::<char>::empty());
        let lines = split_crlf(Seq::<char>::empty());
        assert(lines == seq![Seq::<char>::empty()]);
        assert(lines[0].len() == 0);
        assert(lines.skip(1) =~= Seq::<Seq<char>>::empty());
        assert(parse_elements(lines) == parse_elements(lines.skip(1)));
        assert(elems =~= Seq::<ValueView>::empty());
    } else {
        let e0 = elems[0];
        let rest = elems.skip(1);
        let l0 = scalar_line(e0);
        let rest_text = spec_serialize_elems(rest);
        lemma_scalar_line_plain(e0);
        assert(spec_serialize(e0) == l0 + crlf());
        assert(spec_serialize_elems(elems) =~= l0 + crlf() + (crlf() + rest_text));
        lemma_split_crlf_line(l0, crlf() + rest_text);
        lemma_split_crlf_line(Seq::<char>::empty(), rest_text);
        assert(Seq::<char>::empty() + crlf() + rest_text =~= crlf() + rest_text);
        let lines = split_crlf(spec_serialize_elems(elems));
        assert(lines =~= seq![l0, Seq::<char>::empty()] + split_crlf(rest_text));
        assert(lines[0] == l0 && l0.len() > 0);
        lemma_parse_scalar_line(e0, l0);
        assert(forall|i: int| 0 <= i < rest.len() ==> line_safe(#[trigger] rest[i]));
        lemma_elems_round_trip(rest);
        let tail1 = lines.skip(1);
        assert(tail1 =~= seq![Seq::<char>::empty()] + split_crlf(rest_text));
        assert(tail1[0].len() == 0);
        assert(tail1.skip(1) =~= split_crlf(rest_text));
        assert(parse_elements(tail1) == parse_elements(split_crlf(rest_text)));
        assert(parse_elements(lines) == Ok::<Seq<ValueView>, ErrorView>(seq![e0] + rest));
        assert(seq![e0] + rest =~= elems);
    }
}

/// Round trip: any wire-safe value, written out and read back, is
/// itself.
pub proof fn lemma_round_trip(v: ValueView)
    requires
        wire_safe(v),
    ensures
        spec_parse(spec_serialize(v)) == Ok::<ValueView, ErrorView>(v),
{
    match v {
        ValueView::Arr(elems) => {
            let d = dec_of_int(elems.len() as int);
            let header = seq!['*'] + d;
            lemma_dec_crlf_free(elems.len() as int);
            assert(crlf_free(header)) by {
                assert forall|i: int| 0 <= i < header.len() - 1 implies !(#[trigger] header[i]
                    == '\r' && header[i + 1] == '\n') by {
                    if i > 0 {
                        assert(header[i] == d[i - 1] && header[i + 1] == d[i]);
                    }
                }
            }
            let elems_text = spec_serialize_elems(elems);
            assert(spec_serialize(v) =~= header + crlf() + elems_text);
            lemma_split_crlf_line(header, elems_text);
            let lines = split_crlf(spec_serialize(v));
            assert(lines =~= seq![header] + split_crlf(elems_text));
            assert(lines[0] == header);
            assert(header[0] == '*' && header.len() > 0);
            assert(lines.skip(1) =~= split_crlf(elems_text));
            lemma_elems_round_trip(elems);
        },
        _ => {
            let l0 = scalar_line(v);
            lemma_scalar_line_plain(v);
            assert(spec_serialize(v) == l0 + crlf());
            assert(l0 + crlf() =~= l0 + crlf() + Seq::<char>::empty());
            lemma_split_crlf_line(l0, Seq::<char>::empty());
            let lines = split_crlf(spec_serialize(v));
            assert(lines =~= seq![l0, Seq::<char>::empty()]);
            assert(lines[0] == l0);
            lemma_parse_scalar_line(v, spec_serialize(v));
        },
    }
}

} // verus!
