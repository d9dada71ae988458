//! The reports over an in-memory record list: the overall total, the
//! per-category summary, the printed list lines, and the export text.

use vstd::prelude::*;
use vstd::seq_lib::{commutative_foldr, lemma_fold_right_permutation};
use crate::amount::{enc_amount, format_amount};
use crate::record::{Expense, ExpenseData};

verus! {

/// The sum of all amounts of a record sequence, in cents.
pub open spec fn sum_cents(s: Seq<ExpenseData>) -> int
    decreases s.len(),
{
    if s.len() == 0 {
        0
    } else {
        sum_cents(s.drop_last()) + s.last().amount
    }
}

/// Adding a record adds its amount to the total.
pub proof fn lemma_sum_cents_push(s: Seq<ExpenseData>, e: ExpenseData)
    ensures
        sum_cents(s.push(e)) == sum_cents(s) + e.amount,
{
    assert(s.push(e).drop_last() =~= s);
    assert(s.push(e).last() == e);
}

proof fn lemma_sum_cents_fold_right(s: Seq<ExpenseData>, v: int)
    ensures
        s.fold_right(|e: ExpenseData, acc: int| acc + e.amount, v) == sum_cents(s) + v,
    decreases s.len(),
{
    if s.len() > 0 {
        lemma_sum_cents_fold_right(s.drop_last(), v + s.last().amount);
    }
}

/// The total does not depend on the order of the records: two sequences
/// holding the same records in any order have the same sum.
pub proof fn lemma_sum_cents_permutation(s1: Seq<ExpenseData>, s2: Seq<ExpenseData>)
    requires
        s1.to_multiset() == s2.to_multiset(),
    ensures
        sum_cents(s1) == sum_cents(s2),
{
    let f = |e: ExpenseData, acc: int| acc + e.amount;
    assert(commutative_foldr(f)) by {
        assert(forall|x: ExpenseData, y: ExpenseData, v: int|
            #[trigger] f(x, f(y, v)) == f(y, f(x, v)));
    }
    lemma_fold_right_permutation(s1, s2, f, 0);
    lemma_sum_cents_fold_right(s1, 0);
    lemma_sum_cents_fold_right(s2, 0);
}

/// The total of all record amounts, in cents. The bound keeps every
/// total of machine-held records representable.
pub fn total_cents(data: &Vec<Expense>) -> (r: i128)
    ensures
        r == sum_cents(data.deep_view()),
        -(data@.len() as int) * 0x8000_0000_0000_0000 <= r <= (data@.len() as int)
            * 0x8000_0000_0000_0000,
{
    let ghost dv = data.deep_view();
    let mut acc: i128 = 0;
    let mut k: usize = 0;
    while k < data.len()
        invariant
            k <= data.len(),
            dv == data.deep_view(),
            dv.len() == data@.len(),
            acc == sum_cents(dv.take(k as int)),
            -(k as int) * 0x8000_0000_0000_0000 <= acc <= (k as int) * 0x8000_0000_0000_0000,
        decreases data.len() - k,
    {
        let a = data[k].amount;
        proof {
            assert(dv.take(k + 1).drop_last() =~= dv.take(k as int));
            assert(dv.take(k + 1).last() == dv[k as int]);
            assert(dv[k as int].amount == data@[k as int].amount as int);
        }
        acc = acc + (a as i128);
        k += 1;
    }
    proof {
        assert(dv.take(dv.len() as int) =~= dv);
    }
    acc
}

/// The total as the total command prints it: two decimals and the
/// currency sign.
pub fn total_display(data: &Vec<Expense>) -> (r: String)
    ensures
        r@ == enc_amount(sum_cents(data.deep_view())) + seq!['€'],
{
    let n = data.len();
    let t = total_cents(data);
    proof {
        assert(n == data@.len());
    }
    let mut out = format_amount(t);
    out.push('€');
    out
}

/// The sum of the amounts of the records in one category, in cents.
pub open spec fn sum_for(s: Seq<ExpenseData>, cat: Seq<char>) -> int
    decreases s.len(),
{
    if s.len() == 0 {
        0
    } else {
        sum_for(s.drop_last(), cat) + if s.last().cat == cat {
            s.last().amount
        } else {
            0
        }
    }
}

/// The distinct categories of a record sequence, each once, in the order
/// of their first appearance.
pub open spec fn cats_of(s: Seq<ExpenseData>) -> Seq<Seq<char>>
    decreases s.len(),
{
    if s.len() == 0 {
        Seq::empty()
    } else {
        let prev = cats_of(s.drop_last());
        if prev.contains(s.last().cat) {
            prev
        } else {
            prev.push(s.last().cat)
        }
    }
}

/// Every category stands in `cats_of` only once, so the summary reports
/// each group exactly once.
pub proof fn lemma_cats_of_distinct(s: Seq<ExpenseData>)
    ensures
        forall|i: int, j: int|
            0 <= i < j < cats_of(s).len() ==> cats_of(s)[i] != cats_of(s)[j],
    decreases s.len(),
{
    if s.len() > 0 {
        lemma_cats_of_distinct(s.drop_last());
        let prev = cats_of(s.drop_last());
        if !prev.contains(s.last().cat) {
            assert forall|i: int, j: int|
                0 <= i < j < cats_of(s).len() implies cats_of(s)[i] != cats_of(s)[j] by {
                if j == prev.len() {
                    assert(cats_of(s)[i] == prev[i]);
                    assert(cats_of(s)[j] == s.last().cat);
                    if prev[i] == s.last().cat {
                        assert(prev.contains(s.last().cat));
                    }
                } else {
                    assert(cats_of(s)[i] == prev[i]);
                    assert(cats_of(s)[j] == prev[j]);
                }
            }
        }
    }
}

/// Every category that occurs in the records stands in `cats_of`, so the
/// summary misses no group.
pub proof fn lemma_cats_of_complete(s: Seq<ExpenseData>)
    ensures
        forall|k: int| 0 <= k < s.len() ==> cats_of(s).contains((#[trigger] s[k]).cat),
    decreases s.len(),
{
    if s.len() > 0 {
        lemma_cats_of_complete(s.drop_last());
        let prev = cats_of(s.drop_last());
        assert forall|k: int| 0 <= k < s.len() implies cats_of(s).contains(
            (#[trigger] s[k]).cat,
        ) by {
            if k < s.len() - 1 {
                assert(s.drop_last()[k] == s[k]);
                assert(prev.contains(s[k].cat));
                let idx = choose|idx: int| 0 <= idx < prev.len() && prev[idx] == s[k].cat;
                assert(cats_of(s)[idx] == prev[idx]);
            } else {
                if prev.contains(s.last().cat) {
                    let idx = choose|idx: int|
                        0 <= idx < prev.len() && prev[idx] == s.last().cat;
                    assert(cats_of(s)[idx] == prev[idx]);
                } else {
                    assert(cats_of(s)[prev.len() as int] == s.last().cat);
                }
            }
        }
    }
}

/// One group of the summary: a category and the sum of its records.
#[derive(Debug, PartialEq)]
pub struct CategoryTotal {
    pub cat: String,
    pub total: i128,
}

impl CategoryTotal {
    /// The summary line for this group: `category: amount€`.
    pub fn line(&self) -> (r: String)
        requires
            self.total != i128::MIN,
        ensures
            r@ == self.cat@ + seq![':', ' '] + enc_amount(self.total as int) + seq!['€'],
    {
        let mut out = self.cat.clone();
        out.push(':');
        out.push(' ');
        let amt = format_amount(self.total);
        out.append(amt.as_str());
        out.push('€');
        proof {
            assert(out@ =~= self.cat@ + seq![':', ' '] + enc_amount(self.total as int)
                + seq!['€']);
        }
        out
    }
}

/// The sum of the amounts of the records whose category equals `cat`, in
/// cents.
pub fn category_total(data: &Vec<Expense>, cat: &String) -> (r: i128)
    ensures
        r == sum_for(data.deep_view(), cat@),
        -(data@.len() as int) * 0x8000_0000_0000_0000 <= r <= (data@.len() as int)
            * 0x8000_0000_0000_0000,
{
    let ghost dv = data.deep_view();
    let mut acc: i128 = 0;
    let mut k: usize = 0;
    while k < data.len()
        invariant
            k <= data.len(),
            dv == data.deep_view(),
            dv.len() == data@.len(),
            acc == sum_for(dv.take(k as int), cat@),
            -(k as int) * 0x8000_0000_0000_0000 <= acc <= (k as int) * 0x8000_0000_0000_0000,
        decreases data.len() - k,
    {
        proof {
            assert(dv.take(k + 1).drop_last() =~= dv.take(k as int));
            assert(dv.take(k + 1).last() == dv[k as int]);
            assert(dv[k as int].cat == data@[k as int].cat@);
            assert(dv[k as int].amount == data@[k as int].amount as int);
        }
        if data[k].cat == *cat {
            let a = data[k].amount;
            acc = acc + (a as i128);
        }
        k += 1;
    }
    proof {
        assert(dv.take(dv.len() as int) =~= dv);
    }
    acc
}

/// The per-category summary: every category that occurs, once, in the
/// order of its first appearance, each with the exact sum of its
/// records' amounts.
pub fn summary(data: &Vec<Expense>) -> (r: Vec<CategoryTotal>)
    ensures
        r@.len() == cats_of(data.deep_view()).len(),
        forall|i: int|
            0 <= i < r@.len() ==> (#[trigger] r@[i]).cat@ == cats_of(data.deep_view())[i]
                && r@[i].total == sum_for(data.deep_view(), cats_of(data.deep_view())[i]),
{
    let ghost dv = data.deep_view();
    let mut cats: Vec<String> = Vec::new();
    let mut k: usize = 0;
    while k < data.len()
        invariant
            k <= data.len(),
            dv == data.deep_view(),
            dv.len() == data@.len(),
            cats@.len() == cats_of(dv.take(k as int)).len(),
            forall|t: int|
                0 <= t < cats@.len() ==> (#[trigger] cats@[t])@ == cats_of(dv.take(k as int))[t],
        decreases data.len() - k,
    {
        let ghost prev = cats_of(dv.take(k as int));
        proof {
            assert(dv.take(k + 1).drop_last() =~= dv.take(k as int));
            assert(dv.take(k + 1).last() == dv[k as int]);
            assert(dv[k as int].cat == data@[k as int].cat@);
        }
        let mut found = false;
        let mut t: usize = 0;
        while t < cats.len()
            invariant
                t <= cats@.len(),
                k < data@.len(),
                dv == data.deep_view(),
                dv.len() == data@.len(),
                dv[k as int].cat == data@[k as int].cat@,
                found ==> prev.contains(dv[k as int].cat),
                !found ==> forall|u: int| 0 <= u < t ==> (#[trigger] cats@[u])@ != dv[k as
                    int].cat,
                cats@.len() == prev.len(),
                forall|u: int| 0 <= u < cats@.len() ==> (#[trigger] cats@[u])@ == prev[u],
            decreases cats@.len() - t,
        {
            if !found && cats[t].eq(&data[k].cat) {
                found = true;
                proof {
                    assert(prev[t as int] == dv[k as int].cat);
                    assert(prev.contains(dv[k as int].cat));
                }
            }
            t += 1;
        }
        if !found {
            proof {
                assert(!prev.contains(dv[k as int].cat)) by {
                    if prev.contains(dv[k as int].cat) {
                        let idx = choose|idx: int|
                            0 <= idx < prev.len() && prev[idx] == dv[k as int].cat;
                        assert(cats@[idx]@ == prev[idx]);
                    }
                }
            }
            cats.push(data[k].cat.clone());
            proof {
                assert(cats_of(dv.take(k + 1)) =~= prev.push(dv[k as int].cat));
            }
        } else {
            proof {
                assert(cats_of(dv.take(k + 1)) =~= prev);
            }
        }
        k += 1;
    }
    proof {
        assert(dv.take(dv.len() as int) =~= dv);
    }
    let mut r: Vec<CategoryTotal> = Vec::new();
    let mut j: usize = 0;
    while j < cats.len()
        invariant
            j <= cats@.len(),
            dv == data.deep_view(),
            cats@.len() == cats_of(dv).len(),
            forall|t: int| 0 <= t < cats@.len() ==> (#[trigger] cats@[t])@ == cats_of(dv)[t],
            r@.len() == j,
            forall|i: int|
                0 <= i < j ==> (#[trigger] r@[i]).cat@ == cats_of(dv)[i] && r@[i].total
                    == sum_for(dv, cats_of(dv)[i]),
        decreases cats@.len() - j,
    {
        let total = category_total(data, &cats[j]);
        r.push(CategoryTotal { cat: cats[j].clone(), total });
        j += 1;
    }
    r
}

/// One record as the list command prints it:
/// `date | amount€ | category | description`.
pub open spec fn line_of(e: ExpenseData) -> Seq<char> {
    e.date + seq![' ', '|', ' '] + enc_amount(e.amount) + seq!['€', ' ', '|', ' '] + e.cat
        + seq![' ', '|', ' '] + e.desc
}

/// The printed lines of the list command, one per record, in load order.
pub fn list_lines(data: &Vec<Expense>) -> (r: Vec<String>)
    ensures
        r@.len() == data.deep_view().len(),
        forall|i: int| 0 <= i < r@.len() ==> (#[trigger] r@[i])@ == line_of(data.deep_view()[i]),
{
    let ghost dv = data.deep_view();
    let mut r: Vec<String> = Vec::new();
    let mut k: usize = 0;
    while k < data.len()
        invariant
            k <= data.len(),
            dv == data.deep_view(),
            dv.len() == data@.len(),
            r@.len() == k,
            forall|i: int| 0 <= i < k ==> (#[trigger] r@[i])@ == line_of(dv[i]),
        decreases data.len() - k,
    {
        let e = &data[k];
        let mut line = e.date.clone();
        line.append(" | ");
        let amt = format_amount(e.amount as i128);
        line.append(amt.as_str());
        line.append("€ | ");
        line.append(e.cat.as_str());
        line.append(" | ");
        line.append(e.desc.as_str());
        proof {
            reveal_strlit(" | ");
            reveal_strlit("€ | ");
            assert((" | ")@ =~= seq![' ', '|', ' ']);
            assert(("€ | ")@ =~= seq!['€', ' ', '|', ' ']);
            assert(line@ =~= line_of(dv[k as int]));
        }
        r.push(line);
        k += 1;
    }
    r
}

/// The fixed header line of the export file.
pub open spec fn csv_header() -> Seq<char> {
    seq![
        'd', 'a', 't', 'e', ',', 'a', 'm', 'o', 'u', 'n', 't', ',', 'c', 'a', 't', 'e', 'g',
        'o', 'r', 'y', ',', 'd', 'e', 's', 'c', 'r', 'i', 'p', 't', 'i', 'o', 'n', '\n',
    ]
}

/// One record as a line of the export file, the fields joined by plain
/// commas. A comma inside a field is not escaped; such a field shifts the
/// columns of its line, as the format's simplicity dictates.
pub open spec fn csv_row(e: ExpenseData) -> Seq<char> {
    e.date + seq![','] + enc_amount(e.amount) + seq![','] + e.cat + seq![','] + e.desc
        + seq!['\n']
}

/// The record lines of the export file, in load order.
pub open spec fn csv_rows(s: Seq<ExpenseData>) -> Seq<char>
    decreases s.len(),
{
    if s.len() == 0 {
        Seq::empty()
    } else {
        csv_rows(s.drop_last()) + csv_row(s.last())
    }
}

/// The whole export file: the header, then one line per record.
pub open spec fn csv_of(s: Seq<ExpenseData>) -> Seq<char> {
    csv_header() + csv_rows(s)
}

/// The export text for the record list; writing it to the export file is
/// the caller's part.
pub fn export_csv(data: &Vec<Expense>) -> (r: String)
    ensures
        r@ == csv_of(data.deep_view()),
{
    let ghost dv = data.deep_view();
    let mut out = String::new();
    out.append("date,amount,category,description\n");
    proof {
        reveal_strlit("date,amount,category,description\n");
        assert(("date,amount,category,description\n")@ =~= csv_header());
        assert(out@ =~= csv_header() + csv_rows(dv.take(0)));
    }
    let mut k: usize = 0;
    while k < data.len()
        invariant
            k <= data.len(),
            dv == data.deep_view(),
            dv.len() == data@.len(),
            out@ == csv_header() + csv_rows(dv.take(k as int)),
        decreases data.len() - k,
    {
        let e = &data[k];
        out.append(e.date.as_str());
        out.push(',');
        let amt = format_amount(e.amount as i128);
        out.append(amt.as_str());
        out.push(',');
        out.append(e.cat.as_str());
        out.push(',');
        out.append(e.desc.as_str());
        out.push('\n');
        k += 1;
        proof {
            assert(dv.take(k as int).drop_last() =~= dv.take(k - 1));
            assert(dv.take(k as int).last() == dv[k - 1]);
            assert(out@ =~= csv_header() + csv_rows(dv.take(k as int)));
        }
    }
    proof {
        assert(dv.take(dv.len() as int) =~= dv);
    }
    out
}

/// How often a character occurs in a sequence.
pub open spec fn count_char(s: Seq<char>, c: char) -> int
    decreases s.len(),
{
    if s.len() == 0 {
        0
    } else {
        count_char(s.drop_last(), c) + if s.last() == c {
            1int
        } else {
            0int
        }
    }
}

/// The text holds none of the character at all.
pub open spec fn free_of(t: Seq<char>, c: char) -> bool {
    forall|i: int| 0 <= i < t.len() ==> t[i] != c
}

/// Counting distributes over concatenation.
pub proof fn lemma_count_char_append(a: Seq<char>, b: Seq<char>, c: char)
    ensures
        count_char(a + b, c) == count_char(a, c) + count_char(b, c),
    decreases b.len(),
{
    if b.len() == 0 {
        assert(a + b =~= a);
    } else {
        lemma_count_char_append(a, b.drop_last(), c);
        assert((a + b).drop_last() =~= a + b.drop_last());
        assert((a + b).last() == b.last());
    }
}

/// A sequence free of a character counts it zero times.
pub proof fn lemma_count_char_zero(t: Seq<char>, c: char)
    requires
        free_of(t, c),
    ensures
        count_char(t, c) == 0,
    decreases t.len(),
{
    if t.len() > 0 {
        assert(free_of(t.drop_last(), c));
        lemma_count_char_zero(t.drop_last(), c);
    }
}

/// A formatted amount never holds a newline: its characters are digits,
/// the sign and the point.
proof fn lemma_enc_amount_newline_free(cents: int)
    ensures
        free_of(enc_amount(cents), '\n'),
{
    let a = crate::amount::abs_cents(cents);
    let d = crate::amount::dec_digits((a / 100) as nat);
    crate::amount::lemma_dec_digits((a / 100) as nat);
    assert forall|i: int| 0 <= i < enc_amount(cents).len() implies enc_amount(cents)[i]
        != '\n' by {
        let enc = enc_amount(cents);
        let body = d + seq!['.'] + seq![
            crate::amount::digit_char((a % 100) / 10),
            crate::amount::digit_char(a % 10),
        ];
        if cents < 0 {
            assert(enc =~= seq!['-'] + body);
        } else {
            assert(enc =~= body);
        }
        crate::amount::lemma_digit_char_val((a % 100) / 10);
        crate::amount::lemma_digit_char_val(a % 10);
    }
}

/// The export text has exactly one header line and one line per record:
/// its newline count is one more than the record count, provided no text
/// field holds a newline itself. (A field with a newline would split its
/// own line in two, as a field with a comma shifts columns.)
pub proof fn lemma_export_line_count(s: Seq<ExpenseData>)
    requires
        forall|i: int|
            0 <= i < s.len() ==> free_of((#[trigger] s[i]).date, '\n') && free_of(s[i].cat, '\n')
                && free_of(s[i].desc, '\n'),
    ensures
        count_char(csv_of(s), '\n') == 1 + s.len(),
    decreases s.len(),
{
    assert(count_char(csv_header(), '\n') == 1) by {
        reveal_with_fuel(count_char, 35);
    }
    lemma_count_char_append(csv_header(), csv_rows(s), '\n');
    lemma_count_char_rows(s);
}

proof fn lemma_count_char_rows(s: Seq<ExpenseData>)
    requires
        forall|i: int|
            0 <= i < s.len() ==> free_of((#[trigger] s[i]).date, '\n') && free_of(s[i].cat, '\n')
                && free_of(s[i].desc, '\n'),
    ensures
        count_char(csv_rows(s), '\n') == s.len(),
    decreases s.len(),
{
    if s.len() == 0 {
    } else {
        let butlast = s.drop_last();
        assert(forall|i: int| 0 <= i < butlast.len() ==> #[trigger] butlast[i] == s[i]);
        lemma_count_char_rows(butlast);
        lemma_count_char_append(csv_rows(butlast), csv_row(s.last()), '\n');
        lemma_count_char_row(s.last());
    }
}

proof fn lemma_count_char_row(e: ExpenseData)
    requires
        free_of(e.date, '\n'),
        free_of(e.cat, '\n'),
        free_of(e.desc, '\n'),
    ensures
        count_char(csv_row(e), '\n') == 1,
{
    let p1 = e.date + seq![','] + enc_amount(e.amount) + seq![','] + e.cat + seq![','] + e.desc;
    assert(csv_row(e) == p1 + seq!['\n']);
    assert(count_char(csv_row(e), '\n') == count_char(p1, '\n') + 1) by {
        assert((p1 + seq!['\n']).drop_last() =~= p1);
        assert((p1 + seq!['\n']).last() == '\n');
    }
    lemma_enc_amount_newline_free(e.amount);
    assert(free_of(p1, '\n')) by {
        assert forall|i: int| 0 <= i < p1.len() implies p1[i] != '\n' by {
        }
    }
    lemma_count_char_zero(p1, '\n');
}

} // verus!
