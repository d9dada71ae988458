//! Monetary amounts: integer cents, their two-decimal text form, and the
//! scanner that reads that form back.

use vstd::prelude::*;
use crate::record::{wf_amount, AMOUNT_LIMIT};

verus! {

/// Relies on `String::push`: appends the given character to the end of the
/// string.
pub assume_specification[ String::push ](s: &mut String, c: char)
    ensures
        final(s)@ == old(s)@.push(c),
;

/// The ten decimal digit characters.
pub open spec fn is_digit(c: char) -> bool {
    48 <= c as int <= 57
}

/// The digit character for a value below ten.
pub open spec fn digit_char(d: int) -> char
    recommends
        0 <= d < 10,
{
    (48 + d) as char
}

/// The numeric value of a digit character.
pub open spec fn digit_val(c: char) -> int
    recommends
        is_digit(c),
{
    c as int - 48
}

/// The decimal digit string of a natural number, most significant digit
/// first, with no leading zeros (a lone zero for zero).
pub open spec fn dec_digits(n: nat) -> Seq<char>
    decreases n,
{
    if n < 10 {
        seq![digit_char(n as int)]
    } else {
        dec_digits(n / 10).push(digit_char((n % 10) as int))
    }
}

/// The value of a digit string.
pub open spec fn val_digits(d: Seq<char>) -> int
    decreases d.len(),
{
    if d.len() == 0 {
        0
    } else {
        val_digits(d.drop_last()) * 10 + digit_val(d.last())
    }
}

/// Every character of the sequence is a decimal digit.
pub open spec fn all_digits(d: Seq<char>) -> bool {
    forall|i: int| 0 <= i < d.len() ==> is_digit(#[trigger] d[i])
}

/// Powers of ten.
pub open spec fn pow10(k: nat) -> nat
    decreases k,
{
    if k == 0 {
        1
    } else {
        10 * pow10((k - 1) as nat)
    }
}

/// The magnitude of an integer.
pub open spec fn abs_cents(cents: int) -> int {
    if cents < 0 {
        -cents
    } else {
        cents
    }
}

/// The two-decimal text form of an amount in cents: optional minus sign,
/// the euro digits, a point, and exactly two cent digits.
pub open spec fn enc_amount(cents: int) -> Seq<char> {
    let a = abs_cents(cents);
    let body = dec_digits((a / 100) as nat) + seq!['.'] + seq![
        digit_char((a % 100) / 10),
        digit_char(a % 10),
    ];
    if cents < 0 {
        seq!['-'] + body
    } else {
        body
    }
}

pub proof fn lemma_digit_char_val(d: int)
    requires
        0 <= d < 10,
    ensures
        is_digit(digit_char(d)),
        digit_val(digit_char(d)) == d,
{
}

/// A digit string is all digits, nonempty, and its value is the number it
/// was built from.
pub proof fn lemma_dec_digits(n: nat)
    ensures
        all_digits(dec_digits(n)),
        dec_digits(n).len() >= 1,
        val_digits(dec_digits(n)) == n,
    decreases n,
{
    if n < 10 {
        lemma_digit_char_val(n as int);
        let d = dec_digits(n);
        assert(d =~= seq![digit_char(n as int)]);
        assert(d.drop_last() =~= Seq::<char>::empty());
        assert(val_digits(d.drop_last()) == 0);
        assert(d.last() == digit_char(n as int));
        assert(val_digits(d) == val_digits(d.drop_last()) * 10 + digit_val(d.last()));
        assert(val_digits(dec_digits(n)) == n);
    } else {
        lemma_dec_digits(n / 10);
        lemma_digit_char_val((n % 10) as int);
        let d = dec_digits(n);
        assert(d == dec_digits(n / 10).push(digit_char((n % 10) as int)));
        assert(d.drop_last() =~= dec_digits(n / 10));
        assert(d.last() == digit_char((n % 10) as int));
        assert(val_digits(d) == (n / 10) * 10 + (n % 10));
        assert(forall|i: int|
            0 <= i < d.len() ==> is_digit(#[trigger] d[i])) by {
            assert(forall|i: int|
                0 <= i < d.len() - 1 ==> d[i] == dec_digits(n / 10)[i]);
        }
    }
}

/// A number below `pow10(k)` needs at most `k` digits.
pub proof fn lemma_dec_digits_len(n: nat, k: nat)
    requires
        k >= 1,
        n < pow10(k),
    ensures
        dec_digits(n).len() <= k,
    decreases n,
{
    if n < 10 {
    } else {
        assert(pow10(k) == 10 * pow10((k - 1) as nat));
        assert(n / 10 < pow10((k - 1) as nat));
        lemma_dec_digits_len(n / 10, (k - 1) as nat);
    }
}

/// The value of a digit string stays below `pow10` of its length.
pub proof fn lemma_val_digits_bound(d: Seq<char>)
    requires
        all_digits(d),
    ensures
        0 <= val_digits(d) < pow10(d.len()),
    decreases d.len(),
{
    if d.len() == 0 {
    } else {
        assert(all_digits(d.drop_last()));
        lemma_val_digits_bound(d.drop_last());
        assert(digit_val(d.last()) <= 9);
        assert(pow10(d.len()) == 10 * pow10((d.len() - 1) as nat));
    }
}

/// Where the run of digit characters that starts at `i` ends.
pub open spec fn digit_run_end(s: Seq<char>, i: int) -> int
    decreases s.len() - i,
    when 0 <= i <= s.len()
{
    if i < s.len() && is_digit(s[i]) {
        digit_run_end(s, i + 1)
    } else {
        i
    }
}

/// The digit run ends within the sequence, covers only digits, and stops
/// at the first non-digit.
pub proof fn lemma_digit_run_end(s: Seq<char>, i: int)
    requires
        0 <= i <= s.len(),
    ensures
        i <= digit_run_end(s, i) <= s.len(),
        all_digits(s.subrange(i, digit_run_end(s, i))),
        digit_run_end(s, i) == s.len() || !is_digit(s[digit_run_end(s, i)]),
    decreases s.len() - i,
{
    if i < s.len() && is_digit(s[i]) {
        lemma_digit_run_end(s, i + 1);
        let e = digit_run_end(s, i);
        assert(e == digit_run_end(s, i + 1));
        assert forall|j: int| 0 <= j < e - i implies is_digit(#[trigger] s.subrange(i, e)[j]) by {
            if j == 0 {
                assert(s.subrange(i, e)[0] == s[i]);
            } else {
                assert(s.subrange(i + 1, e)[j - 1] == s[i + j]);
                assert(s.subrange(i, e)[j] == s[i + j]);
            }
        }
        assert(all_digits(s.subrange(i, e)));
    } else {
        assert(s.subrange(i, i) =~= Seq::<char>::empty());
    }
}

/// A run of digits bounded on the right by a non-digit (or the end) is
/// exactly what `digit_run_end` finds.
pub proof fn lemma_digit_run_exact(s: Seq<char>, i: int, e: int)
    requires
        0 <= i <= e <= s.len(),
        all_digits(s.subrange(i, e)),
        e == s.len() || !is_digit(s[e]),
    ensures
        digit_run_end(s, i) == e,
    decreases e - i,
{
    if i < e {
        assert(is_digit(s[i])) by {
            assert(s.subrange(i, e)[0] == s[i]);
        }
        assert forall|j: int| 0 <= j < e - (i + 1) implies is_digit(
            #[trigger] s.subrange(i + 1, e)[j],
        ) by {
            assert(s.subrange(i + 1, e)[j] == s[i + 1 + j]);
            assert(s.subrange(i, e)[j + 1] == s[i + 1 + j]);
        }
        assert(all_digits(s.subrange(i + 1, e)));
        lemma_digit_run_exact(s, i + 1, e);
    }
}

/// Reads `digits.dd` at position `i` of the store text: the unsigned body
/// of an amount field. Yields the cents value and the index just past the
/// two cent digits. Integer parts over sixteen digits are refused, which
/// keeps every accepted amount within `AMOUNT_LIMIT`.
pub open spec fn scan_amount_body(s: Seq<char>, i: int) -> Option<(int, int)>
    recommends
        0 <= i <= s.len(),
{
    if i < s.len() && is_digit(s[i]) {
        let e = digit_run_end(s, i);
        if e - i <= 16 {
            let ip = val_digits(s.subrange(i, e));
            if e + 3 <= s.len() && s[e] == '.' && is_digit(s[e + 1]) && is_digit(s[e + 2]) {
                Some((ip * 100 + digit_val(s[e + 1]) * 10 + digit_val(s[e + 2]), e + 3))
            } else {
                None
            }
        } else {
            None
        }
    } else {
        None
    }
}

/// Reads a possibly negated amount at position `i`.
pub open spec fn scan_amount(s: Seq<char>, i: int) -> Option<(int, int)>
    recommends
        0 <= i <= s.len(),
{
    if i < s.len() && s[i] == '-' {
        match scan_amount_body(s, i + 1) {
            Some(p) => Some((-p.0, p.1)),
            None => None,
        }
    } else {
        scan_amount_body(s, i)
    }
}

/// `pow10` grows with its argument.
pub proof fn lemma_pow10_le(a: nat, b: nat)
    requires
        a <= b,
    ensures
        pow10(a) <= pow10(b),
    decreases b,
{
    if a < b {
        lemma_pow10_le(a, (b - 1) as nat);
        assert(pow10(b) == 10 * pow10((b - 1) as nat));
    }
}

/// The amount scanner reads back exactly what `enc_amount` wrote, from
/// any position, whatever follows it.
pub proof fn lemma_scan_amount_enc(s: Seq<char>, i: int, cents: int)
    requires
        0 <= i,
        i + enc_amount(cents).len() <= s.len(),
        s.subrange(i, i + enc_amount(cents).len()) == enc_amount(cents),
        wf_amount(cents),
    ensures
        scan_amount(s, i) == Some((cents, i + enc_amount(cents).len())),
{
    let enc = enc_amount(cents);
    assert forall|k: int| 0 <= k < enc.len() implies s[i + k] == #[trigger] enc[k] by {
        assert(s.subrange(i, i + enc.len())[k] == s[i + k]);
    }
    if cents < 0 {
        assert(enc[0] == '-');
        assert(s[i + 0] == enc[0]);
        assert(s[i] == '-');
        assert(enc_amount(-cents) =~= enc.skip(1));
        assert forall|k: int| 0 <= k < enc_amount(-cents).len() implies s[i + 1 + k]
            == #[trigger] enc_amount(-cents)[k] by {
            assert(enc_amount(-cents)[k] == enc[k + 1]);
            assert(s[i + (k + 1)] == enc[k + 1]);
        }
        lemma_scan_amount_body_enc(s, i + 1, -cents);
    } else {
        lemma_scan_amount_body_enc(s, i, cents);
        assert(s[i] == enc[0]);
        assert(is_digit(enc[0])) by {
            lemma_dec_digits((cents / 100) as nat);
            assert(enc[0] == dec_digits((cents / 100) as nat)[0]);
        }
        assert(s[i] != '-');
    }
}

proof fn lemma_scan_amount_body_enc(s: Seq<char>, i: int, a: int)
    requires
        0 <= i,
        0 <= a <= AMOUNT_LIMIT,
        i + enc_amount(a).len() <= s.len(),
        forall|k: int| 0 <= k < enc_amount(a).len() ==> s[i + k] == #[trigger] enc_amount(a)[k],
    ensures
        scan_amount_body(s, i) == Some((a, i + enc_amount(a).len())),
{
    reveal_with_fuel(pow10, 17);
    let ip = (a / 100) as nat;
    let d = dec_digits(ip);
    let enc = enc_amount(a);
    lemma_dec_digits(ip);
    assert(enc =~= d + seq!['.'] + seq![digit_char((a % 100) / 10), digit_char(a % 10)]);
    assert(enc.len() == d.len() + 3);
    // the characters of the integer part
    assert forall|k: int| 0 <= k < d.len() implies s[i + k] == #[trigger] d[k] by {
        assert(enc[k] == d[k]);
    }
    assert(s.subrange(i, i + d.len()) =~= d);
    // the run of digits stops at the decimal point
    assert(enc[d.len() as int] == '.');
    assert(s[i + d.len()] == enc[d.len() as int]);
    assert(!is_digit('.'));
    lemma_digit_run_exact(s, i, i + d.len());
    let e = digit_run_end(s, i);
    assert(e == i + d.len());
    // the integer part is small enough for the scanner
    lemma_dec_digits_len(ip, 16);
    assert(e - i <= 16);
    assert(is_digit(s[i])) by {
        assert(d[0] == s[i]);
    }
    assert(val_digits(s.subrange(i, e)) == ip);
    // the two cent digits
    lemma_digit_char_val((a % 100) / 10);
    lemma_digit_char_val(a % 10);
    assert(enc[(d.len() + 1) as int] == digit_char((a % 100) / 10));
    assert(s[i + d.len() + 1] == enc[(d.len() + 1) as int]);
    assert(enc[(d.len() + 2) as int] == digit_char(a % 10));
    assert(s[i + d.len() + 2] == enc[(d.len() + 2) as int]);
    assert(s[e + 1] == digit_char((a % 100) / 10));
    assert(s[e + 2] == digit_char(a % 10));
    // reassembling the value
    assert(a % 100 == ((a % 100) / 10) * 10 + (a % 100) % 10);
    assert((a % 100) % 10 == a % 10) by (nonlinear_arith)
        requires
            a >= 0,
    ;
    assert(a == (a / 100) * 100 + a % 100);
    assert(scan_amount_body(s, i) == Some((a, e + 3)));
}

/// One decimal digit as a character.
fn digit_char_exec(d: u8) -> (c: char)
    requires
        d < 10,
    ensures
        c == digit_char(d as int),
{
    (48 + d) as char
}

/// Whether a character is a decimal digit.
fn is_digit_exec(c: char) -> (r: bool)
    ensures
        r == is_digit(c),
{
    let u = c as u32;
    48 <= u && u <= 57
}

/// The value of a digit character.
fn digit_val_exec(c: char) -> (r: u8)
    requires
        is_digit(c),
    ensures
        r == digit_val(c),
{
    ((c as u32) - 48) as u8
}

/// Appends the decimal digits of `n` to `out`.
fn push_dec_digits(out: &mut String, n: u128)
    ensures
        final(out)@ == old(out)@ + dec_digits(n as nat),
    decreases n,
{
    if n >= 10 {
        push_dec_digits(out, n / 10);
    }
    out.push(digit_char_exec((n % 10) as u8));
    proof {
        if n < 10 {
            assert(dec_digits(n as nat) =~= seq![digit_char(n as int)]);
        } else {
            assert(dec_digits(n as nat) == dec_digits((n as nat) / 10).push(
                digit_char(((n as nat) % 10) as int),
            ));
        }
        assert(final(out)@ =~= old(out)@ + dec_digits(n as nat));
    }
}

/// The two-decimal text of an amount in cents, `enc_amount` made
/// executable.
pub fn format_amount(cents: i128) -> (r: String)
    requires
        cents != i128::MIN,
    ensures
        r@ == enc_amount(cents as int),
{
    let mut out = String::new();
    let a: u128 = if cents < 0 {
        out.push('-');
        (-cents) as u128
    } else {
        cents as u128
    };
    proof {
        assert(a == abs_cents(cents as int));
    }
    push_dec_digits(&mut out, a / 100);
    out.push('.');
    out.push(digit_char_exec(((a % 100) / 10) as u8));
    out.push(digit_char_exec((a % 10) as u8));
    proof {
        assert(out@ =~= enc_amount(cents as int));
    }
    out
}

/// Reads the digit run that starts at `i`, refusing empty runs and runs
/// longer than sixteen digits; yields the run's value and its end.
fn read_digit_run(s: &str, i: usize) -> (r: Option<(u64, usize)>)
    requires
        i <= s@.len(),
    ensures
        ({
            let e = digit_run_end(s@, i as int);
            match r {
                Some(p) => 1 <= e - i <= 16 && p.0 == val_digits(s@.subrange(i as int, e)) && p.1
                    == e && p.1 <= s@.len(),
                None => e == i || e - i > 16,
            }
        }),
{
    let n = s.unicode_len();
    proof {
        lemma_digit_run_end(s@, i as int);
    }
    let mut j = i;
    while j < n && is_digit_exec(s.get_char(j))
        invariant
            i <= j <= n,
            n == s@.len(),
            digit_run_end(s@, i as int) == digit_run_end(s@, j as int),
        decreases n - j,
    {
        j += 1;
    }
    proof {
        assert(digit_run_end(s@, j as int) == j);
        lemma_digit_run_end(s@, i as int);
    }
    if j == i || j - i > 16 {
        return None;
    }
    let ghost e = j as int;
    let mut v: u64 = 0;
    let mut k = i;
    while k < j
        invariant
            i <= k <= j,
            j <= s@.len(),
            e == j as int,
            all_digits(s@.subrange(i as int, e)),
            j - i <= 16,
            v == val_digits(s@.subrange(i as int, k as int)),
            0 <= v < pow10((k - i) as nat),
        decreases j - k,
    {
        proof {
            reveal_with_fuel(pow10, 17);
            lemma_pow10_le(((k - i) + 1) as nat, 16);
            assert(is_digit(s@[k as int])) by {
                assert(s@.subrange(i as int, e)[k - i] == s@[k as int]);
            }
        }
        let c = s.get_char(k);
        let d = digit_val_exec(c);
        v = v * 10 + (d as u64);
        k += 1;
        proof {
            assert(s@.subrange(i as int, k as int).drop_last() =~= s@.subrange(
                i as int,
                k - 1,
            ));
            assert(s@.subrange(i as int, k as int).last() == s@[k - 1]);
            lemma_val_digits_bound(s@.subrange(i as int, k as int));
        }
    }
    proof {
        assert(s@.subrange(i as int, k as int) =~= s@.subrange(i as int, e));
    }
    Some((v, j))
}

/// Reads an amount field at position `i`, the executable form of
/// `scan_amount`.
pub fn scan_amount_exec(s: &str, i: usize) -> (r: Option<(i64, usize)>)
    requires
        i <= s@.len(),
    ensures
        match r {
            Some(p) => scan_amount(s@, i as int) == Some((p.0 as int, p.1 as int)) && wf_amount(
                p.0 as int,
            ) && i < p.1 <= s@.len(),
            None => scan_amount(s@, i as int) is None,
        },
{
    let n = s.unicode_len();
    let neg: bool = i < n && s.get_char(i) == '-';
    let start: usize = if neg {
        i + 1
    } else {
        i
    };
    let run = read_digit_run(s, start);
    match run {
        None => None,
        Some((v, e)) => {
            proof {
                reveal_with_fuel(pow10, 17);
                lemma_digit_run_end(s@, start as int);
                lemma_val_digits_bound(
                    s@.subrange(start as int, digit_run_end(s@, start as int)),
                );
                lemma_pow10_le((e - start) as nat, 16);
                assert(v < pow10(16));
            }
            if n - e >= 3 {
                let c0 = s.get_char(e);
                let c1 = s.get_char(e + 1);
                let c2 = s.get_char(e + 2);
                if c0 == '.' && is_digit_exec(c1) && is_digit_exec(c2) {
                    let d1 = digit_val_exec(c1) as u64;
                    let d2 = digit_val_exec(c2) as u64;
                    let cents_u: u64 = v * 100 + d1 * 10 + d2;
                    let cents: i64 = if neg {
                        -(cents_u as i64)
                    } else {
                        cents_u as i64
                    };
                    Some((cents, e + 3))
                } else {
                    None
                }
            } else {
                None
            }
        },
    }
}

/// The cents value of the unsigned body of a command-line amount: one to
/// sixteen euro digits starting at `i`, then either the end of the text
/// or a point with one or two cent digits ending the text. Anything else
/// is refused.
pub open spec fn amount_body_val(s: Seq<char>, i: int) -> Option<int>
    recommends
        0 <= i <= s.len(),
{
    let e = digit_run_end(s, i);
    if 1 <= e - i <= 16 {
        let ip = val_digits(s.subrange(i, e));
        if e == s.len() {
            Some(ip * 100)
        } else if s[e] == '.' {
            if s.len() == e + 2 && is_digit(s[e + 1]) {
                Some(ip * 100 + digit_val(s[e + 1]) * 10)
            } else if s.len() == e + 3 && is_digit(s[e + 1]) && is_digit(s[e + 2]) {
                Some(ip * 100 + digit_val(s[e + 1]) * 10 + digit_val(s[e + 2]))
            } else {
                None
            }
        } else {
            None
        }
    } else {
        None
    }
}

/// The cents value of a whole command-line amount argument: an optional
/// minus sign before the unsigned body.
pub open spec fn parse_amount_spec(s: Seq<char>) -> Option<int> {
    if s.len() > 0 && s[0] == '-' {
        match amount_body_val(s, 1) {
            Some(v) => Some(-v),
            None => None,
        }
    } else {
        amount_body_val(s, 0)
    }
}

/// Reads a command-line amount argument into cents, refusing any text
/// that `parse_amount_spec` refuses.
pub fn parse_amount(s: &str) -> (r: Option<i64>)
    ensures
        match r {
            Some(v) => parse_amount_spec(s@) == Some(v as int) && wf_amount(v as int),
            None => parse_amount_spec(s@) is None,
        },
{
    let n = s.unicode_len();
    let neg: bool = n > 0 && s.get_char(0) == '-';
    let start: usize = if neg {
        1
    } else {
        0
    };
    match read_digit_run(s, start) {
        None => None,
        Some((v, e)) => {
            proof {
                reveal_with_fuel(pow10, 17);
                lemma_digit_run_end(s@, start as int);
                lemma_val_digits_bound(
                    s@.subrange(start as int, digit_run_end(s@, start as int)),
                );
                lemma_pow10_le((e - start) as nat, 16);
                assert(v < pow10(16));
            }
            let body: Option<u64> = if e == n {
                Some(v * 100)
            } else if s.get_char(e) == '.' {
                if n - e == 2 {
                    let c1 = s.get_char(e + 1);
                    if is_digit_exec(c1) {
                        Some(v * 100 + (digit_val_exec(c1) as u64) * 10)
                    } else {
                        None
                    }
                } else if n - e == 3 {
                    let c1 = s.get_char(e + 1);
                    let c2 = s.get_char(e + 2);
                    if is_digit_exec(c1) && is_digit_exec(c2) {
                        Some(
                            v * 100 + (digit_val_exec(c1) as u64) * 10 + (digit_val_exec(
                                c2,
                            ) as u64),
                        )
                    } else {
                        None
                    }
                } else {
                    None
                }
            } else {
                None
            };
            match body {
                None => None,
                Some(cents_u) => {
                    let cents: i64 = if neg {
                        -(cents_u as i64)
                    } else {
                        cents_u as i64
                    };
                    Some(cents)
                },
            }
        },
    }
}

} // verus!
