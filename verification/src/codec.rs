//! The store format: how a record sequence is written to text and read
//! back. The format is a bracketed list of braced records, each holding
//! the four fields in fixed order; text fields are quoted, with quotes and
//! backslashes escaped by a backslash. A text that does not follow the
//! format exactly is rejected as a whole, and loading falls back to the
//! empty sequence.

use vstd::prelude::*;
use crate::amount::{
    enc_amount, format_amount, scan_amount, scan_amount_exec, lemma_scan_amount_enc,
};
use crate::record::{wf_amount, wf_amounts, Expense, ExpenseData};

verus! {

/// How one character appears inside a quoted field.
pub open spec fn esc_char(c: char) -> Seq<char> {
    if c == '"' || c == '\\' {
        seq!['\\', c]
    } else {
        seq![c]
    }
}

/// How a whole text appears inside a quoted field.
pub open spec fn esc(t: Seq<char>) -> Seq<char>
    decreases t.len(),
{
    if t.len() == 0 {
        Seq::empty()
    } else {
        esc_char(t[0]) + esc(t.drop_first())
    }
}

/// A quoted field: the escaped text between two quotes.
pub open spec fn enc_string(t: Seq<char>) -> Seq<char> {
    seq!['"'] + esc(t) + seq!['"']
}

/// Escaping distributes over concatenation.
pub proof fn lemma_esc_append(a: Seq<char>, b: Seq<char>)
    ensures
        esc(a + b) == esc(a) + esc(b),
    decreases a.len(),
{
    if a.len() == 0 {
        assert(a + b =~= b);
        assert(esc(a) + esc(b) =~= esc(b));
    } else {
        lemma_esc_append(a.drop_first(), b);
        assert((a + b).drop_first() =~= a.drop_first() + b);
        assert((a + b)[0] == a[0]);
        assert(esc(a + b) =~= esc(a) + esc(b));
    }
}

/// Reads a quoted field's body at `i` (just past the opening quote):
/// yields the unescaped text and the index just past the closing quote.
pub open spec fn scan_string_body(s: Seq<char>, i: int) -> Option<(Seq<char>, int)>
    decreases s.len() - i,
    when 0 <= i <= s.len()
{
    if i >= s.len() {
        None
    } else if s[i] == '"' {
        Some((Seq::empty(), i + 1))
    } else if s[i] == '\\' {
        if i + 2 <= s.len() {
            match scan_string_body(s, i + 2) {
                Some(p) => Some((seq![s[i + 1]] + p.0, p.1)),
                None => None,
            }
        } else {
            None
        }
    } else {
        match scan_string_body(s, i + 1) {
            Some(p) => Some((seq![s[i]] + p.0, p.1)),
            None => None,
        }
    }
}

/// The body scanner reads back exactly what the field encoder wrote.
pub proof fn lemma_scan_string_enc(s: Seq<char>, i: int, t: Seq<char>)
    requires
        0 <= i,
        i + esc(t).len() + 1 <= s.len(),
        forall|k: int| 0 <= k < esc(t).len() ==> s[i + k] == #[trigger] esc(t)[k],
        s[i + esc(t).len()] == '"',
    ensures
        scan_string_body(s, i) == Some((t, i + esc(t).len() + 1)),
    decreases t.len(),
{
    if t.len() == 0 {
        assert(s[i] == '"');
        assert(scan_string_body(s, i) == Some((Seq::<char>::empty(), i + 1)));
        assert(Seq::<char>::empty() =~= t);
    } else {
        let c = t[0];
        let t2 = t.drop_first();
        let e = esc(t);
        assert(e == esc_char(c) + esc(t2));
        if c == '"' || c == '\\' {
            assert(e[0] == '\\');
            assert(e[1] == c);
            assert(s[i + 0] == e[0]);
            assert(s[i + 1] == e[1]);
            assert forall|k: int| 0 <= k < esc(t2).len() implies s[i + 2 + k] == #[trigger] esc(
                t2,
            )[k] by {
                assert(e[k + 2] == esc(t2)[k]);
                assert(s[i + (k + 2)] == e[k + 2]);
            }
            lemma_scan_string_enc(s, i + 2, t2);
            assert(s[i] == '\\');
            assert(s[i] != '"');
            assert(seq![s[i + 1]] + t2 =~= t);
        } else {
            assert(e[0] == c);
            assert(s[i + 0] == e[0]);
            assert forall|k: int| 0 <= k < esc(t2).len() implies s[i + 1 + k] == #[trigger] esc(
                t2,
            )[k] by {
                assert(e[k + 1] == esc(t2)[k]);
                assert(s[i + (k + 1)] == e[k + 1]);
            }
            lemma_scan_string_enc(s, i + 1, t2);
            assert(seq![s[i]] + t2 =~= t);
        }
    }
}

/// The label of the amount field, with its separator.
pub open spec fn key_amount() -> Seq<char> {
    seq!['"', 'a', 'm', 'o', 'u', 'n', 't', '"', ':']
}

/// The label of the description field, with its separator.
pub open spec fn key_desc() -> Seq<char> {
    seq!['"', 'd', 'e', 's', 'c', '"', ':']
}

/// The label of the category field, with its separator.
pub open spec fn key_cat() -> Seq<char> {
    seq!['"', 'c', 'a', 't', '"', ':']
}

/// The label of the date field, with its separator.
pub open spec fn key_date() -> Seq<char> {
    seq!['"', 'd', 'a', 't', 'e', '"', ':']
}

/// `p` occurs character for character at position `i` of `s`.
pub open spec fn has_prefix_at(s: Seq<char>, i: int, p: Seq<char>) -> bool {
    &&& 0 <= i
    &&& i + p.len() <= s.len()
    &&& forall|k: int| 0 <= k < p.len() ==> s[i + k] == #[trigger] p[k]
}

/// One record as it stands in the store text.
pub open spec fn enc_record(e: ExpenseData) -> Seq<char> {
    seq!['{'] + key_amount() + enc_amount(e.amount) + seq![','] + key_desc() + enc_string(e.desc)
        + seq![','] + key_cat() + enc_string(e.cat) + seq![','] + key_date() + enc_string(e.date)
        + seq!['}']
}

/// The text after the first record: `,record` repeated, then the closing
/// bracket.
pub open spec fn enc_more(rs: Seq<ExpenseData>) -> Seq<char>
    decreases rs.len(),
{
    if rs.len() == 0 {
        Seq::empty()
    } else {
        seq![','] + enc_record(rs[0]) + enc_more(rs.drop_first())
    }
}

/// A whole record sequence as store text.
pub open spec fn enc_records(rs: Seq<ExpenseData>) -> Seq<char> {
    if rs.len() == 0 {
        seq!['[', ']']
    } else {
        seq!['['] + enc_record(rs[0]) + enc_more(rs.drop_first()) + seq![']']
    }
}

/// Reads a labelled quoted field at `i`.
pub open spec fn scan_str_field(s: Seq<char>, i: int, key: Seq<char>) -> Option<(Seq<char>, int)> {
    if has_prefix_at(s, i, key) {
        let j = i + key.len();
        if j < s.len() && s[j] == '"' {
            scan_string_body(s, j + 1)
        } else {
            None
        }
    } else {
        None
    }
}

/// Reads one record at `i`: a braced group of the four labelled fields in
/// fixed order.
pub open spec fn scan_record(s: Seq<char>, i: int) -> Option<(ExpenseData, int)> {
    if 0 <= i < s.len() && s[i] == '{' && has_prefix_at(s, i + 1, key_amount()) {
        match scan_amount(s, i + 1 + key_amount().len()) {
            Some(pa) => if pa.1 < s.len() && s[pa.1] == ',' {
                match scan_str_field(s, pa.1 + 1, key_desc()) {
                    Some(pd) => if pd.1 < s.len() && s[pd.1] == ',' {
                        match scan_str_field(s, pd.1 + 1, key_cat()) {
                            Some(pc) => if pc.1 < s.len() && s[pc.1] == ',' {
                                match scan_str_field(s, pc.1 + 1, key_date()) {
                                    Some(pt) => if pt.1 < s.len() && s[pt.1] == '}' {
                                        Some(
                                            (
                                                ExpenseData {
                                                    amount: pa.0,
                                                    desc: pd.0,
                                                    cat: pc.0,
                                                    date: pt.0,
                                                },
                                                pt.1 + 1,
                                            ),
                                        )
                                    } else {
                                        None
                                    },
                                    None => None,
                                }
                            } else {
                                None
                            },
                            None => None,
                        }
                    } else {
                        None
                    },
                    None => None,
                }
            } else {
                None
            },
            None => None,
        }
    } else {
        None
    }
}

/// Reads the rest of the list after a record: `,record` repeated until
/// the closing bracket.
pub open spec fn scan_records_tail(s: Seq<char>, i: int) -> Option<(Seq<ExpenseData>, int)>
    decreases s.len() - i,
    when 0 <= i <= s.len()
{
    if i < s.len() && s[i] == ']' {
        Some((Seq::empty(), i + 1))
    } else if i < s.len() && s[i] == ',' {
        match scan_record(s, i + 1) {
            Some(pr) => if i + 1 < pr.1 <= s.len() {
                match scan_records_tail(s, pr.1) {
                    Some(pt) => Some((seq![pr.0] + pt.0, pt.1)),
                    None => None,
                }
            } else {
                None
            },
            None => None,
        }
    } else {
        None
    }
}

/// Reads a whole store text: the record sequence it holds, if it follows
/// the format exactly to its last character.
pub open spec fn parse_store(s: Seq<char>) -> Option<Seq<ExpenseData>> {
    if s.len() >= 1 && s[0] == '[' {
        if s.len() == 2 && s[1] == ']' {
            Some(Seq::empty())
        } else {
            match scan_record(s, 1) {
                Some(pr) => if 1 < pr.1 <= s.len() {
                    match scan_records_tail(s, pr.1) {
                        Some(pt) => if pt.1 == s.len() {
                            Some(seq![pr.0] + pt.0)
                        } else {
                            None
                        },
                        None => None,
                    }
                } else {
                    None
                },
                None => None,
            }
        }
    } else {
        None
    }
}

/// A prefix of a concatenation splits into prefixes of its parts.
pub proof fn lemma_prefix_split(s: Seq<char>, i: int, a: Seq<char>, b: Seq<char>)
    requires
        has_prefix_at(s, i, a + b),
    ensures
        has_prefix_at(s, i, a),
        has_prefix_at(s, i + a.len(), b),
{
    assert forall|k: int| 0 <= k < a.len() implies s[i + k] == #[trigger] a[k] by {
        assert((a + b)[k] == a[k]);
        assert(s[i + k] == (a + b)[k]);
    }
    assert forall|k: int| 0 <= k < b.len() implies s[i + a.len() + k] == #[trigger] b[k] by {
        assert((a + b)[a.len() + k] == b[k]);
        assert(s[i + (a.len() + k)] == (a + b)[a.len() + k]);
    }
}

/// The field scanner reads back exactly what the field encoder wrote.
proof fn lemma_scan_str_field_enc(s: Seq<char>, i: int, key: Seq<char>, t: Seq<char>)
    requires
        has_prefix_at(s, i, key + enc_string(t)),
    ensures
        scan_str_field(s, i, key) == Some((t, i + key.len() + enc_string(t).len())),
{
    lemma_prefix_split(s, i, key, enc_string(t));
    let j = i + key.len();
    assert(enc_string(t) =~= seq!['"'] + (esc(t) + seq!['"']));
    lemma_prefix_split(s, j, seq!['"'], esc(t) + seq!['"']);
    assert(s[j + 0] == seq!['"'][0]);
    assert(s[j] == '"');
    lemma_prefix_split(s, j + 1, esc(t), seq!['"']);
    assert forall|k: int| 0 <= k < esc(t).len() implies s[j + 1 + k] == #[trigger] esc(t)[k] by {
    }
    assert(s[j + 1 + esc(t).len() + 0] == seq!['"'][0]);
    assert(s[j + 1 + esc(t).len()] == '"');
    lemma_scan_string_enc(s, j + 1, t);
}

/// The record scanner reads back exactly what the record encoder wrote.
pub proof fn lemma_scan_record_enc(s: Seq<char>, i: int, e: ExpenseData)
    requires
        has_prefix_at(s, i, enc_record(e)),
        wf_amount(e.amount),
    ensures
        scan_record(s, i) == Some((e, i + enc_record(e).len())),
{
    let part1 = seq!['{'] + key_amount();
    let amt = enc_amount(e.amount);
    let part2 = seq![','] + key_desc() + enc_string(e.desc);
    let part3 = seq![','] + key_cat() + enc_string(e.cat);
    let part4 = seq![','] + key_date() + enc_string(e.date);
    let whole = enc_record(e);
    assert(whole =~= part1 + amt + part2 + part3 + part4 + seq!['}']);

    lemma_prefix_split(s, i, part1 + amt + part2 + part3 + part4, seq!['}']);
    lemma_prefix_split(s, i, part1 + amt + part2 + part3, part4);
    lemma_prefix_split(s, i, part1 + amt + part2, part3);
    lemma_prefix_split(s, i, part1 + amt, part2);
    lemma_prefix_split(s, i, part1, amt);
    assert(part1 =~= seq!['{'] + key_amount());
    lemma_prefix_split(s, i, seq!['{'], key_amount());

    assert(s[i + 0] == seq!['{'][0]);
    assert(s[i] == '{');

    let j0 = i + 1 + key_amount().len();
    assert(has_prefix_at(s, j0, amt)) by {
        assert(j0 == i + part1.len());
    }
    assert(s.subrange(j0, j0 + amt.len()) =~= amt);
    lemma_scan_amount_enc(s, j0, e.amount);
    let j1 = j0 + amt.len();

    // ",\"desc\":" and the description
    assert(part2 =~= seq![','] + (key_desc() + enc_string(e.desc)));
    lemma_prefix_split(s, j1, seq![','], key_desc() + enc_string(e.desc));
    assert(s[j1 + 0] == seq![','][0]);
    assert(s[j1] == ',');
    assert(key_desc() + enc_string(e.desc) =~= (seq![','] + key_desc() + enc_string(
        e.desc,
    )).drop_first());
    lemma_scan_str_field_enc(s, j1 + 1, key_desc(), e.desc);
    let j2 = j1 + 1 + key_desc().len() + enc_string(e.desc).len();
    assert(j2 == j1 + part2.len());

    // ",\"cat\":" and the category
    assert(has_prefix_at(s, j1 + part2.len(), part3)) by {
        assert(j1 + part2.len() == i + (part1 + amt + part2).len());
    }
    assert(part3 =~= seq![','] + (key_cat() + enc_string(e.cat)));
    lemma_prefix_split(s, j2, seq![','], key_cat() + enc_string(e.cat));
    assert(s[j2 + 0] == seq![','][0]);
    assert(s[j2] == ',');
    lemma_scan_str_field_enc(s, j2 + 1, key_cat(), e.cat);
    let j3 = j2 + 1 + key_cat().len() + enc_string(e.cat).len();
    assert(j3 == j2 + part3.len());

    // ",\"date\":" and the date
    assert(has_prefix_at(s, j3, part4)) by {
        assert(j3 == i + (part1 + amt + part2 + part3).len());
    }
    assert(part4 =~= seq![','] + (key_date() + enc_string(e.date)));
    lemma_prefix_split(s, j3, seq![','], key_date() + enc_string(e.date));
    assert(s[j3 + 0] == seq![','][0]);
    assert(s[j3] == ',');
    lemma_scan_str_field_enc(s, j3 + 1, key_date(), e.date);
    let j4 = j3 + 1 + key_date().len() + enc_string(e.date).len();

    // the closing brace
    assert(j4 == i + (part1 + amt + part2 + part3 + part4).len());
    assert(s[j4 + 0] == seq!['}'][0]);
    assert(s[j4] == '}');

    assert(scan_record(s, i) == Some((e, j4 + 1)));
    assert(j4 + 1 == i + whole.len());
}

/// Appends the escaped form of `t` to `out`.
fn push_escaped(out: &mut String, t: &str)
    ensures
        final(out)@ == old(out)@ + esc(t@),
{
    let n = t.unicode_len();
    let mut k: usize = 0;
    while k < n
        invariant
            k <= n,
            n == t@.len(),
            out@ == old(out)@ + esc(t@.take(k as int)),
        decreases n - k,
    {
        let c = t.get_char(k);
        if c == '"' || c == '\\' {
            out.push('\\');
            out.push(c);
        } else {
            out.push(c);
        }
        k += 1;
        proof {
            let prev = t@.take(k - 1);
            let one = seq![t@[k - 1]];
            assert(t@.take(k as int) =~= prev + one);
            lemma_esc_append(prev, one);
            assert(one.drop_first() =~= Seq::<char>::empty());
            assert(esc(one.drop_first()) =~= Seq::<char>::empty());
            assert(esc(one) =~= esc_char(t@[k - 1]));
            assert(out@ =~= old(out)@ + esc(t@.take(k as int)));
        }
    }
    proof {
        assert(t@.take(n as int) =~= t@);
    }
}

/// Reads a quoted field's body starting at `i`, the executable form of
/// `scan_string_body`.
fn scan_string_exec(s: &str, i: usize) -> (r: Option<(String, usize)>)
    requires
        i <= s@.len(),
    ensures
        match r {
            Some(p) => scan_string_body(s@, i as int) == Some((p.0@, p.1 as int)) && i < p.1
                <= s@.len(),
            None => scan_string_body(s@, i as int) is None,
        },
{
    let n = s.unicode_len();
    let mut acc = String::new();
    let mut j = i;
    loop
        invariant
            i <= j <= n,
            n == s@.len(),
            ({
                let whole = scan_string_body(s@, i as int);
                match scan_string_body(s@, j as int) {
                    Some(p) => whole == Some((acc@ + p.0, p.1)),
                    None => whole is None,
                }
            }),
        decreases n - j,
    {
        if j >= n {
            return None;
        }
        let c = s.get_char(j);
        if c == '"' {
            proof {
                assert(scan_string_body(s@, j as int) == Some((Seq::<char>::empty(), j + 1)));
                assert(acc@ + Seq::<char>::empty() =~= acc@);
            }
            return Some((acc, j + 1));
        }
        if c == '\\' {
            if n - j < 2 {
                proof {
                    assert(scan_string_body(s@, j as int) is None);
                }
                return None;
            }
            let c2 = s.get_char(j + 1);
            let ghost acc0 = acc@;
            acc.push(c2);
            proof {
                let after = scan_string_body(s@, j + 2);
                if after is Some {
                    let p = after->Some_0;
                    assert(acc@ + p.0 =~= acc0 + (seq![s@[j + 1]] + p.0));
                }
            }
            j += 2;
        } else {
            let ghost acc0 = acc@;
            acc.push(c);
            proof {
                let after = scan_string_body(s@, j + 1);
                if after is Some {
                    let p = after->Some_0;
                    assert(acc@ + p.0 =~= acc0 + (seq![s@[j as int]] + p.0));
                }
            }
            j += 1;
        }
    }
}

/// The tail scanner reads back exactly the comma-separated records and
/// the closing bracket that `enc_more` wrote.
proof fn lemma_scan_records_tail_enc(s: Seq<char>, i: int, rs: Seq<ExpenseData>)
    requires
        has_prefix_at(s, i, enc_more(rs) + seq![']']),
        wf_amounts(rs),
    ensures
        scan_records_tail(s, i) == Some((rs, i + enc_more(rs).len() + 1)),
    decreases rs.len(),
{
    if rs.len() == 0 {
        assert(enc_more(rs) + seq![']'] =~= seq![']']);
        assert(s[i + 0] == (enc_more(rs) + seq![']'])[0]);
        assert(s[i] == ']');
        assert(Seq::<ExpenseData>::empty() =~= rs);
    } else {
        let head = rs[0];
        let rest = rs.drop_first();
        assert(wf_amounts(rest)) by {
            assert(forall|k: int| 0 <= k < rest.len() ==> #[trigger] rest[k] == rs[k + 1]);
        }
        assert(enc_more(rs) + seq![']'] =~= seq![','] + (enc_record(head) + (enc_more(rest)
            + seq![']'])));
        lemma_prefix_split(s, i, seq![','], enc_record(head) + (enc_more(rest) + seq![']']));
        assert(s[i + 0] == seq![','][0]);
        assert(s[i] == ',');
        lemma_prefix_split(s, i + 1, enc_record(head), enc_more(rest) + seq![']']);
        lemma_scan_record_enc(s, i + 1, head);
        let j = i + 1 + enc_record(head).len();
        assert(enc_record(head).len() >= 1);
        lemma_scan_records_tail_enc(s, j, rest);
        assert(seq![head] + rest =~= rs);
    }
}

/// Round trip: a record sequence written by the store encoder is read
/// back exactly, provided every amount is within bounds.
#[verifier::rlimit(100)]
#[verifier::spinoff_prover]
proof fn lemma_store_round_trip_nonempty(rs: Seq<ExpenseData>)
    requires
        wf_amounts(rs),
        rs.len() > 0,
    ensures
        parse_store(enc_records(rs)) == Some(rs),
{
    let s = enc_records(rs);
    let head = rs[0];
    let rest = rs.drop_first();
    assert(wf_amounts(rest)) by {
        assert(forall|k: int| 0 <= k < rest.len() ==> #[trigger] rest[k] == rs[k + 1]);
    }
    assert(has_prefix_at(s, 0, s));
    assert(s =~= seq!['['] + (enc_record(head) + (enc_more(rest) + seq![']'])));
    lemma_prefix_split(s, 0int, seq!['['], enc_record(head) + (enc_more(rest) + seq![']']));
    assert(s[0int + 0] == seq!['['][0]);
    assert(s[0] == '[');
    lemma_prefix_split(s, 1, enc_record(head), enc_more(rest) + seq![']']);
    lemma_scan_record_enc(s, 1, head);
    let j: int = 1 + enc_record(head).len() as int;
    assert(enc_record(head).len() >= 1);
    // the text is not the empty store: a record starts with a brace
    assert(s[1] == enc_record(head)[0]);
    assert(enc_record(head)[0] == '{');
    lemma_scan_records_tail_enc(s, j, rest);
    assert(seq![head] + rest =~= rs);
    assert(j + enc_more(rest).len() + 1 == s.len());
}

/// Round trip: a record sequence written by the store encoder is read
/// back exactly, provided every amount is within bounds.
pub proof fn lemma_store_round_trip(rs: Seq<ExpenseData>)
    requires
        wf_amounts(rs),
    ensures
        parse_store(enc_records(rs)) == Some(rs),
{
    if rs.len() == 0 {
        let s = enc_records(rs);
        assert(s =~= seq!['[', ']']);
        assert(Seq::<ExpenseData>::empty() =~= rs);
    } else {
        lemma_store_round_trip_nonempty(rs);
    }
}

/// What a loaded store yields: the records of a text that follows the
/// format, the empty sequence for a missing file or any other text.
pub open spec fn load_result(data: Option<Seq<char>>) -> Seq<ExpenseData> {
    match data {
        Some(s) => match parse_store(s) {
            Some(rs) => rs,
            None => Seq::empty(),
        },
        None => Seq::empty(),
    }
}

/// A store that starts empty stays empty: a missing file loads as the
/// empty sequence, and saving that sequence yields a text that loads back
/// to it.
pub proof fn lemma_empty_store_round_trip()
    ensures
        load_result(None) == Seq::<ExpenseData>::empty(),
        load_result(Some(enc_records(Seq::<ExpenseData>::empty())))
            == Seq::<ExpenseData>::empty(),
{
    lemma_store_round_trip(Seq::<ExpenseData>::empty());
}

/// Appends one encoded record to `out`.
#[verifier::rlimit(100)]
fn push_record(out: &mut String, e: &Expense)
    ensures
        final(out)@ == old(out)@ + enc_record(e.deep_view()),
{
    proof {
        reveal_strlit("{\"amount\":");
        reveal_strlit(",\"desc\":\"");
        reveal_strlit("\",\"cat\":\"");
        reveal_strlit("\",\"date\":\"");
        reveal_strlit("\"}");
        assert(("{\"amount\":")@ =~= seq!['{'] + key_amount());
        assert((",\"desc\":\"")@ =~= seq![','] + key_desc() + seq!['"']);
        assert(("\",\"cat\":\"")@ =~= seq!['"'] + seq![','] + key_cat() + seq!['"']);
        assert(("\",\"date\":\"")@ =~= seq!['"'] + seq![','] + key_date() + seq!['"']);
        assert(("\"}")@ =~= seq!['"'] + seq!['}']);
    }
    out.append("{\"amount\":");
    let amt = format_amount(e.amount as i128);
    out.append(amt.as_str());
    out.append(",\"desc\":\"");
    push_escaped(out, e.desc.as_str());
    out.append("\",\"cat\":\"");
    push_escaped(out, e.cat.as_str());
    out.append("\",\"date\":\"");
    push_escaped(out, e.date.as_str());
    out.append("\"}");
    proof {
        assert(final(out)@ =~= old(out)@ + enc_record(e.deep_view()));
    }
}

/// `enc_more` grows record by record.
proof fn lemma_enc_more_push(rs: Seq<ExpenseData>, e: ExpenseData)
    ensures
        enc_more(rs.push(e)) == enc_more(rs) + seq![','] + enc_record(e),
    decreases rs.len(),
{
    if rs.len() == 0 {
        assert(rs.push(e).drop_first() =~= Seq::<ExpenseData>::empty());
        assert(rs.push(e)[0] == e);
        assert(enc_more(Seq::<ExpenseData>::empty()) =~= Seq::<char>::empty());
        assert(enc_more(rs.push(e)) =~= enc_more(rs) + seq![','] + enc_record(e));
    } else {
        lemma_enc_more_push(rs.drop_first(), e);
        assert(rs.push(e).drop_first() =~= rs.drop_first().push(e));
        assert(rs.push(e)[0] == rs[0]);
        assert(enc_more(rs.push(e)) =~= enc_more(rs) + seq![','] + enc_record(e));
    }
}

/// Serializes the complete record sequence as store text; writing that
/// text to the store file is the caller's part.
pub fn save_expenses(data: &Vec<Expense>) -> (r: String)
    ensures
        r@ == enc_records(data.deep_view()),
{
    let ghost dv = data.deep_view();
    let mut out = String::new();
    out.push('[');
    proof {
        assert(out@ =~= seq!['[']);
    }
    let mut idx: usize = 0;
    while idx < data.len()
        invariant
            idx <= data.len(),
            dv == data.deep_view(),
            dv.len() == data.len(),
            idx == 0 ==> out@ == seq!['['],
            idx >= 1 ==> out@ == seq!['['] + enc_record(dv[0]) + enc_more(
                dv.subrange(1, idx as int),
            ),
        decreases data.len() - idx,
    {
        let ghost out0 = out@;
        if idx == 0 {
            push_record(&mut out, &data[idx]);
            proof {
                assert(dv.subrange(1, 1) =~= Seq::<ExpenseData>::empty());
                assert(out@ =~= seq!['['] + enc_record(dv[0]) + enc_more(dv.subrange(1, 1)));
            }
        } else {
            out.push(',');
            push_record(&mut out, &data[idx]);
            proof {
                let prev = dv.subrange(1, idx as int);
                assert(dv.subrange(1, idx + 1) =~= prev.push(dv[idx as int]));
                lemma_enc_more_push(prev, dv[idx as int]);
                assert(out@ =~= seq!['['] + enc_record(dv[0]) + enc_more(
                    dv.subrange(1, idx + 1),
                ));
            }
        }
        idx += 1;
    }
    out.push(']');
    proof {
        if dv.len() == 0 {
            assert(out@ =~= enc_records(dv));
        } else {
            assert(dv.subrange(1, dv.len() as int) =~= dv.drop_first());
            assert(out@ =~= enc_records(dv));
        }
    }
    out
}

/// Whether `lit` occurs character for character at position `i`.
fn match_lit(s: &str, i: usize, lit: &str) -> (r: bool)
    requires
        i <= s@.len(),
    ensures
        r == has_prefix_at(s@, i as int, lit@),
{
    let n = s.unicode_len();
    let m = lit.unicode_len();
    if m > n - i {
        return false;
    }
    let mut k: usize = 0;
    while k < m
        invariant
            i + m <= n,
            k <= m,
            n == s@.len(),
            m == lit@.len(),
            forall|t: int| 0 <= t < k ==> s@[i + t] == #[trigger] lit@[t],
        decreases m - k,
    {
        if s.get_char(i + k) != lit.get_char(k) {
            proof {
                assert(!has_prefix_at(s@, i as int, lit@)) by {
                    if has_prefix_at(s@, i as int, lit@) {
                        assert(s@[i + k] == lit@[k as int]);
                    }
                }
            }
            return false;
        }
        k += 1;
    }
    true
}

/// Reads a labelled quoted field, the executable form of
/// `scan_str_field`.
fn parse_str_field_exec(s: &str, i: usize, key: &str) -> (r: Option<(String, usize)>)
    requires
        i <= s@.len(),
    ensures
        match r {
            Some(p) => scan_str_field(s@, i as int, key@) == Some((p.0@, p.1 as int)) && i < p.1
                <= s@.len(),
            None => scan_str_field(s@, i as int, key@) is None,
        },
{
    let n = s.unicode_len();
    if !match_lit(s, i, key) {
        return None;
    }
    let j = i + key.unicode_len();
    if j < n && s.get_char(j) == '"' {
        scan_string_exec(s, j + 1)
    } else {
        None
    }
}

/// Reads one record, the executable form of `scan_record`.
fn parse_record_exec(s: &str, i: usize) -> (r: Option<(Expense, usize)>)
    requires
        i <= s@.len(),
    ensures
        match r {
            Some(p) => scan_record(s@, i as int) == Some((p.0.deep_view(), p.1 as int)) && i + 1
                < p.1 <= s@.len() && wf_amount(p.0.deep_view().amount),
            None => scan_record(s@, i as int) is None,
        },
{
    proof {
        reveal_strlit("\"amount\":");
        reveal_strlit("\"desc\":");
        reveal_strlit("\"cat\":");
        reveal_strlit("\"date\":");
        assert(("\"amount\":")@ =~= key_amount());
        assert(("\"desc\":")@ =~= key_desc());
        assert(("\"cat\":")@ =~= key_cat());
        assert(("\"date\":")@ =~= key_date());
    }
    let n = s.unicode_len();
    if i >= n || s.get_char(i) != '{' {
        return None;
    }
    if !match_lit(s, i + 1, "\"amount\":") {
        return None;
    }
    let j0 = i + 1 + 9;
    proof {
        assert(key_amount().len() == 9);
    }
    match scan_amount_exec(s, j0) {
        None => None,
        Some((amt, j1)) => {
            if j1 >= n || s.get_char(j1) != ',' {
                return None;
            }
            match parse_str_field_exec(s, j1 + 1, "\"desc\":") {
                None => None,
                Some((desc, j2)) => {
                    if j2 >= n || s.get_char(j2) != ',' {
                        return None;
                    }
                    match parse_str_field_exec(s, j2 + 1, "\"cat\":") {
                        None => None,
                        Some((cat, j3)) => {
                            if j3 >= n || s.get_char(j3) != ',' {
                                return None;
                            }
                            match parse_str_field_exec(s, j3 + 1, "\"date\":") {
                                None => None,
                                Some((date, j4)) => {
                                    if j4 >= n || s.get_char(j4) != '}' {
                                        return None;
                                    }
                                    let ex = Expense { amount: amt, desc, cat, date };
                                    proof {
                                        assert(scan_record(s@, i as int) == Some(
                                            (ex.deep_view(), j4 + 1 as int),
                                        ));
                                    }
                                    Some((ex, j4 + 1))
                                },
                            }
                        },
                    }
                },
            }
        },
    }
}

/// Reads a whole store text, the executable form of `parse_store`.
pub fn parse_store_exec(s: &str) -> (r: Option<Vec<Expense>>)
    ensures
        match r {
            Some(v) => parse_store(s@) == Some(v.deep_view()) && wf_amounts(v.deep_view()),
            None => parse_store(s@) is None,
        },
{
    let n = s.unicode_len();
    if n < 1 || s.get_char(0) != '[' {
        return None;
    }
    if n == 2 && s.get_char(1) == ']' {
        let v: Vec<Expense> = Vec::new();
        proof {
            assert(v.deep_view() =~= Seq::<ExpenseData>::empty());
        }
        return Some(v);
    }
    match parse_record_exec(s, 1) {
        None => None,
        Some((first, j)) => {
            let mut v: Vec<Expense> = Vec::new();
            v.push(first);
            let mut cur = j;
            proof {
                assert(v.deep_view() =~= seq![first.deep_view()]);
            }
            loop
                invariant
                    1 <= cur <= n,
                    n == s@.len(),
                    wf_amounts(v.deep_view()),
                    ({
                        let whole = parse_store(s@);
                        match scan_records_tail(s@, cur as int) {
                            Some(pt) => (if pt.1 == s@.len() {
                                whole == Some(v.deep_view() + pt.0)
                            } else {
                                whole is None
                            }),
                            None => whole is None,
                        }
                    }),
                decreases n - cur,
            {
                if cur >= n {
                    return None;
                }
                let c = s.get_char(cur);
                if c == ']' {
                    if cur + 1 == n {
                        proof {
                            assert(v.deep_view() + Seq::<ExpenseData>::empty() =~= v.deep_view());
                        }
                        return Some(v);
                    } else {
                        return None;
                    }
                }
                if c != ',' {
                    return None;
                }
                match parse_record_exec(s, cur + 1) {
                    None => {
                        return None;
                    },
                    Some((e2, j2)) => {
                        let ghost v0 = v.deep_view();
                        v.push(e2);
                        proof {
                            assert(v.deep_view() =~= v0.push(e2.deep_view()));
                            if scan_records_tail(s@, j2 as int) is Some {
                                let pt = scan_records_tail(s@, j2 as int)->Some_0;
                                assert(v.deep_view() + pt.0 =~= v0 + (seq![e2.deep_view()]
                                    + pt.0));
                            }
                            assert forall|k: int|
                                0 <= k < v.deep_view().len() implies wf_amount(
                                #[trigger] v.deep_view()[k].amount,
                            ) by {
                                if k < v0.len() {
                                    assert(v.deep_view()[k] == v0[k]);
                                }
                            }
                        }
                        cur = j2;
                    },
                }
            }
        },
    }
}

/// Loads the record list from the store file's content: `None` stands for
/// a missing or unreadable file. A text that does not follow the store
/// format yields the empty list, exactly as a missing file does.
pub fn load_expenses(data: Option<&str>) -> (r: Vec<Expense>)
    ensures
        r.deep_view() == load_result(
            match data {
                Some(s) => Some(s@),
                None => None,
            },
        ),
        wf_amounts(r.deep_view()),
{
    match data {
        Some(s) => match parse_store_exec(s) {
            Some(v) => v,
            None => {
                let v: Vec<Expense> = Vec::new();
                proof {
                    assert(v.deep_view() =~= Seq::<ExpenseData>::empty());
                }
                v
            },
        },
        None => {
            let v: Vec<Expense> = Vec::new();
            proof {
                assert(v.deep_view() =~= Seq::<ExpenseData>::empty());
            }
            v
        },
    }
}

} // verus!
