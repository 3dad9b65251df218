//! The summary line: `{k1=min/mean/max, ..., kn=min/mean/max}`.
//!
//! The keys stand in ascending byte order. Each number is written with one
//! fractional digit. The mean is the total divided by the count, rounded to
//! the nearest tenth, a half away from zero; it is computed on whole numbers
//! of tenths, without floating point. A summary of no keys is `{}`.

use vstd::prelude::*;
use vstd::arithmetic::div_mod::{lemma_fundamental_div_mod, lemma_mod_bound};
use vstd::slice::slice_to_vec;
use crate::aggregate::{aggregate, aggregate_model, lemma_aggregate_empty, lemma_aggregate_push,
    lemma_aggregate_wf, parse_records, Record};
use crate::decode::{push_tenths, render_tenths};
use crate::error::FormatError;
use crate::key::{key_lt, lemma_key_lt_asymmetric, lemma_key_lt_total, lemma_key_lt_transitive,
    strictly_ascending};
use crate::table::{lemma_insert_ascending, Stats, Summary, Table};

verus! {

/// The byte `{`.
pub const OPEN: u8 = 0x7b;

/// The byte `}`.
pub const CLOSE: u8 = 0x7d;

/// The byte `=`.
pub const EQUALS: u8 = 0x3d;

/// The byte `/`.
pub const SLASH: u8 = 0x2f;

/// The byte `,`.
pub const COMMA: u8 = 0x2c;

/// The byte ` `.
pub const SPACE: u8 = 0x20;

/// `sum` divided by `count`, rounded to the nearest whole number, a half
/// away from zero.
pub open spec fn mean_tenths(sum: int, count: int) -> int {
    if sum >= 0 {
        (2 * sum + count) / (2 * count)
    } else {
        -((2 * (-sum) + count) / (2 * count))
    }
}

/// What the rounding of a quotient that is not negative comes to: `q` is the
/// one whole number with `2cq <= 2x + c < 2cq + 2c`.
proof fn lemma_rounded_quotient(x: int, c: int)
    requires
        x >= 0,
        c >= 1,
    ensures
        2 * c * ((2 * x + c) / (2 * c)) <= 2 * x + c < 2 * c * ((2 * x + c) / (2 * c)) + 2 * c,
{
    lemma_fundamental_div_mod(2 * x + c, 2 * c);
    lemma_mod_bound(2 * x + c, 2 * c);
}

/// The mean is the nearest whole number to `sum / count`: twice their
/// distance is at most one.
pub proof fn lemma_mean_nearest(sum: int, count: int)
    requires
        count >= 1,
    ensures
        -count <= 2 * (count * mean_tenths(sum, count) - sum) <= count,
        mean_tenths(-sum, count) == -mean_tenths(sum, count),
{
    if sum >= 0 {
        lemma_rounded_quotient(sum, count);
        let q = (2 * sum + count) / (2 * count);
        assert(2 * count * q == 2 * (count * q)) by (nonlinear_arith);
        if sum == 0 {
            assert(q == 0) by (nonlinear_arith)
                requires
                    2 * count * q <= count < 2 * count * q + 2 * count,
                    count >= 1,
            ;
        }
    } else {
        lemma_rounded_quotient(-sum, count);
        let q = (2 * (-sum) + count) / (2 * count);
        assert(2 * count * q == 2 * (count * q)) by (nonlinear_arith);
        assert(count * (-q) == -(count * q)) by (nonlinear_arith);
    }
}

/// The mean of values that all lie between `lo` and `hi` lies between `lo`
/// and `hi`.
pub proof fn lemma_mean_between(sum: int, count: int, lo: int, hi: int)
    requires
        count >= 1,
        count * lo <= sum <= count * hi,
    ensures
        lo <= mean_tenths(sum, count) <= hi,
{
    if sum >= 0 {
        lemma_rounded_quotient(sum, count);
        let q = (2 * sum + count) / (2 * count);
        assert(q <= hi) by (nonlinear_arith)
            requires
                2 * count * q <= 2 * sum + count,
                sum <= count * hi,
                count >= 1,
        ;
        assert(lo <= q) by (nonlinear_arith)
            requires
                2 * sum + count < 2 * count * q + 2 * count,
                count * lo <= sum,
                count >= 1,
        ;
    } else {
        lemma_rounded_quotient(-sum, count);
        let q = (2 * (-sum) + count) / (2 * count);
        assert(q <= -lo) by (nonlinear_arith)
            requires
                2 * count * q <= 2 * (-sum) + count,
                count * lo <= sum,
                count >= 1,
        ;
        assert(-hi <= q) by (nonlinear_arith)
            requires
                2 * (-sum) + count < 2 * count * q + 2 * count,
                sum <= count * hi,
                count >= 1,
        ;
    }
}

/// The mean of the values behind `stats`, in tenths. It lies between the
/// least and the greatest of them.
pub fn mean_of(stats: Stats) -> (mean: i16)
    requires
        stats@.wf(),
    ensures
        mean == mean_tenths(stats.sum as int, stats.count as int),
        stats.min <= mean <= stats.max,
{
    proof {
        lemma_mean_between(stats.sum as int, stats.count as int, stats.min as int, stats.max as int);
        assert(stats.count * stats.min >= stats.count * (-0x8000)) by (nonlinear_arith)
            requires
                stats.min >= -0x8000,
                stats.count >= 0,
        ;
        assert(stats.count * stats.max <= stats.count * 0x8000) by (nonlinear_arith)
            requires
                stats.max <= 0x8000,
                stats.count >= 0,
        ;
    }
    let count: i128 = stats.count as i128;
    if stats.sum >= 0 {
        ((2 * stats.sum + count) / (2 * count)) as i16
    } else {
        (-((2 * (-stats.sum) + count) / (2 * count))) as i16
    }
}

/// One entry of the summary: a key with its least value, its mean and its
/// greatest value, each in tenths.
pub struct Line {
    pub key: Seq<u8>,
    pub min: int,
    pub mean: int,
    pub max: int,
}

/// One entry of the summary, as [`report`] gives it.
#[derive(Debug, PartialEq, Eq)]
pub struct ReportLine {
    /// The key.
    pub key: Vec<u8>,
    /// The least value, in tenths.
    pub min: i16,
    /// The mean, in tenths.
    pub mean: i16,
    /// The greatest value, in tenths.
    pub max: i16,
}

impl View for ReportLine {
    type V = Line;

    open spec fn view(&self) -> Line {
        Line { key: self.key@, min: self.min as int, mean: self.mean as int, max: self.max as int }
    }
}

/// What each of `lines` stands for.
pub open spec fn line_views(lines: Seq<ReportLine>) -> Seq<Line> {
    Seq::new(lines.len(), |i: int| lines[i]@)
}

/// The keys of `lines`, in their order.
pub open spec fn line_keys(lines: Seq<Line>) -> Seq<Seq<u8>> {
    Seq::new(lines.len(), |i: int| lines[i].key)
}

/// The entry of `key` where its values come to `summary`.
pub open spec fn line_of(key: Seq<u8>, summary: Summary) -> Line {
    Line {
        key,
        min: summary.min,
        mean: mean_tenths(summary.sum, summary.count as int),
        max: summary.max,
    }
}

/// `lines` is the report of `m`: one entry for each key of `m`, made from
/// what `m` holds for the key, the keys in strictly ascending byte order.
pub open spec fn is_report_of(lines: Seq<Line>, m: Map<Seq<u8>, Summary>) -> bool {
    &&& strictly_ascending(line_keys(lines))
    &&& forall|i: int|
        0 <= i < lines.len() ==> m.contains_key((#[trigger] lines[i]).key) && lines[i] == line_of(
            lines[i].key,
            m[lines[i].key],
        )
    &&& forall|k: Seq<u8>| #[trigger]
        m.contains_key(k) ==> exists|i: int| 0 <= i < lines.len() && (#[trigger] lines[i]).key == k
}

/// The report of `m`.
pub open spec fn report_model(m: Map<Seq<u8>, Summary>) -> Seq<Line> {
    choose|lines: Seq<Line>| is_report_of(lines, m)
}

/// One entry as text: `key=min/mean/max`.
pub open spec fn render_line(line: Line) -> Seq<u8> {
    line.key + seq![EQUALS] + render_tenths(line.min) + seq![SLASH] + render_tenths(line.mean)
        + seq![SLASH] + render_tenths(line.max)
}

/// The entries as text, with `, ` between one and the next.
pub open spec fn render_lines(lines: Seq<Line>) -> Seq<u8>
    decreases lines.len(),
{
    if lines.len() == 0 {
        Seq::empty()
    } else if lines.len() == 1 {
        render_line(lines[0])
    } else {
        render_lines(lines.drop_last()) + seq![COMMA, SPACE] + render_line(lines.last())
    }
}

/// The summary line: the entries as text, within braces.
pub open spec fn render_summary(lines: Seq<Line>) -> Seq<u8> {
    seq![OPEN] + render_lines(lines) + seq![CLOSE]
}

/// The summary line of `records`.
pub open spec fn summary_text(records: Seq<Record>) -> Seq<u8> {
    render_summary(report_model(aggregate_model(records)))
}

/// Two reports of one map hold the same keys at the first `n` places.
proof fn lemma_report_prefix(a: Seq<Line>, b: Seq<Line>, m: Map<Seq<u8>, Summary>, n: int)
    requires
        is_report_of(a, m),
        is_report_of(b, m),
        0 <= n <= a.len(),
        n <= b.len(),
    ensures
        forall|i: int| 0 <= i < n ==> (#[trigger] a[i]).key == b[i].key,
    decreases n,
{
    if n > 0 {
        let t = n - 1;
        lemma_report_prefix(a, b, m, t);
        let ka = line_keys(a);
        let kb = line_keys(b);
        assert(m.contains_key(a[t].key));
        assert(m.contains_key(b[t].key));
        let j = choose|j: int| 0 <= j < b.len() && (#[trigger] b[j]).key == a[t].key;
        let i = choose|i: int| 0 <= i < a.len() && (#[trigger] a[i]).key == b[t].key;
        if j < t {
            assert(a[j].key == b[j].key);
            assert(ka[j] == a[j].key && ka[t] == a[t].key);
            lemma_key_lt_asymmetric(ka[j], ka[t]);
        } else if i < t {
            assert(a[i].key == b[i].key);
            assert(kb[i] == b[i].key && kb[t] == b[t].key);
            lemma_key_lt_asymmetric(kb[i], kb[t]);
        } else if j > t && i > t {
            assert(kb[t] == b[t].key && kb[j] == b[j].key);
            assert(ka[t] == a[t].key && ka[i] == a[i].key);
            lemma_key_lt_asymmetric(kb[t], kb[j]);
        } else if j > t {
            assert(i == t);
        } else {
            assert(j == t);
        }
    }
}

/// A map has one report only: the order of the keys leaves no choice.
pub proof fn lemma_report_unique(a: Seq<Line>, b: Seq<Line>, m: Map<Seq<u8>, Summary>)
    requires
        is_report_of(a, m),
        is_report_of(b, m),
    ensures
        a == b,
{
    let ka = line_keys(a);
    let kb = line_keys(b);
    if a.len() < b.len() {
        let n = a.len() as int;
        lemma_report_prefix(a, b, m, n);
        assert(m.contains_key(b[n].key));
        let i = choose|i: int| 0 <= i < a.len() && (#[trigger] a[i]).key == b[n].key;
        assert(a[i].key == b[i].key);
        assert(kb[i] == b[i].key && kb[n] == b[n].key);
        lemma_key_lt_asymmetric(kb[i], kb[n]);
    } else if b.len() < a.len() {
        let n = b.len() as int;
        lemma_report_prefix(a, b, m, n);
        assert(m.contains_key(a[n].key));
        let j = choose|j: int| 0 <= j < b.len() && (#[trigger] b[j]).key == a[n].key;
        assert(a[j].key == b[j].key);
        assert(ka[j] == a[j].key && ka[n] == a[n].key);
        lemma_key_lt_asymmetric(ka[j], ka[n]);
    } else {
        lemma_report_prefix(a, b, m, a.len() as int);
        assert forall|i: int| 0 <= i < a.len() implies a[i] == b[i] by {
            assert(a[i].key == b[i].key);
        }
        assert(a =~= b);
    }
}

/// Where a key that `keys` does not hold has to go: after every smaller key
/// and before every greater one.
proof fn lemma_insertion_point(keys: Seq<Seq<u8>>, k: Seq<u8>, n: int) -> (pos: int)
    requires
        strictly_ascending(keys),
        forall|i: int| 0 <= i < keys.len() ==> #[trigger] keys[i] != k,
        0 <= n <= keys.len(),
        forall|i: int| 0 <= i < n ==> key_lt(#[trigger] keys[i], k),
    ensures
        0 <= pos <= keys.len(),
        forall|i: int| 0 <= i < pos ==> key_lt(#[trigger] keys[i], k),
        forall|i: int| pos <= i < keys.len() ==> key_lt(k, #[trigger] keys[i]),
    decreases keys.len() - n,
{
    if n == keys.len() {
        n
    } else {
        lemma_key_lt_total(keys[n], k);
        if key_lt(keys[n], k) {
            lemma_insertion_point(keys, k, n + 1)
        } else {
            assert forall|i: int| n <= i < keys.len() implies key_lt(k, #[trigger] keys[i]) by {
                if i > n {
                    lemma_key_lt_transitive(k, keys[n], keys[i]);
                }
            }
            n
        }
    }
}

/// Whatever the records, what they come to has a report, and so exactly one:
/// the summary line of an input is settled by its records.
pub proof fn lemma_report_exists(records: Seq<Record>)
    ensures
        is_report_of(report_model(aggregate_model(records)), aggregate_model(records)),
    decreases records.len(),
{
    let m = aggregate_model(records);
    if records.len() == 0 {
        lemma_aggregate_empty();
        assert(is_report_of(Seq::<Line>::empty(), m));
    } else {
        let front = records.drop_last();
        let record = records.last();
        assert(front.push(record) =~= records);
        lemma_report_exists(front);
        lemma_aggregate_push(front, record);
        let before = aggregate_model(front);
        let old_lines = report_model(before);
        let old_keys = line_keys(old_lines);
        let entry = line_of(record.key, m[record.key]);
        if before.contains_key(record.key) {
            let at = choose|i: int| 0 <= i < old_lines.len() && (#[trigger] old_lines[i]).key == record.key;
            let lines = old_lines.update(at, entry);
            assert(line_keys(lines) =~= old_keys);
            assert forall|i: int| 0 <= i < lines.len() implies m.contains_key((#[trigger] lines[i]).key)
                && lines[i] == line_of(lines[i].key, m[lines[i].key]) by {
                if i != at {
                    assert(lines[i] == old_lines[i]);
                    assert(old_keys[i] == old_lines[i].key && old_keys[at] == record.key);
                    if i < at {
                        lemma_key_lt_asymmetric(old_keys[i], old_keys[at]);
                    } else {
                        lemma_key_lt_asymmetric(old_keys[at], old_keys[i]);
                    }
                }
            }
            assert forall|k: Seq<u8>| #[trigger] m.contains_key(k) implies exists|i: int|
                0 <= i < lines.len() && (#[trigger] lines[i]).key == k by {
                assert(before.contains_key(k));
                let i = choose|i: int| 0 <= i < old_lines.len() && (#[trigger] old_lines[i]).key == k;
                assert(lines[i].key == k);
            }
            assert(is_report_of(lines, m));
        } else {
            assert forall|i: int| 0 <= i < old_keys.len() implies #[trigger] old_keys[i] != record.key by {
                assert(before.contains_key(old_lines[i].key));
            }
            let pos = lemma_insertion_point(old_keys, record.key, 0);
            lemma_insert_ascending(old_keys, pos, record.key);
            let lines = old_lines.insert(pos, entry);
            assert(line_keys(lines) =~= old_keys.insert(pos, record.key));
            assert forall|i: int| 0 <= i < lines.len() implies m.contains_key((#[trigger] lines[i]).key)
                && lines[i] == line_of(lines[i].key, m[lines[i].key]) by {
                if i < pos {
                    assert(lines[i] == old_lines[i]);
                    assert(old_keys[i] == old_lines[i].key);
                } else if i > pos {
                    assert(lines[i] == old_lines[i - 1]);
                    assert(old_keys[i - 1] == old_lines[i - 1].key);
                }
            }
            assert forall|k: Seq<u8>| #[trigger] m.contains_key(k) implies exists|i: int|
                0 <= i < lines.len() && (#[trigger] lines[i]).key == k by {
                if k == record.key {
                    assert(lines[pos].key == k);
                } else {
                    assert(before.contains_key(k));
                    let i = choose|i: int| 0 <= i < old_lines.len() && (#[trigger] old_lines[i]).key == k;
                    if i < pos {
                        assert(lines[i] == old_lines[i]);
                    } else {
                        assert(lines[i + 1] == old_lines[i]);
                    }
                }
            }
            assert(is_report_of(lines, m));
        }
    }
}

/// In the summary of any records the keys are strictly ascending, no key
/// occurs twice, and every mean lies between the least and the greatest
/// value of its key.
pub proof fn lemma_summary_sound(records: Seq<Record>)
    ensures
        ({
            let lines = report_model(aggregate_model(records));
            &&& is_report_of(lines, aggregate_model(records))
            &&& strictly_ascending(line_keys(lines))
            &&& forall|i: int, j: int|
                0 <= i < lines.len() && 0 <= j < lines.len() && i != j ==> (#[trigger] lines[i]).key != (
                #[trigger] lines[j]).key
            &&& forall|i: int|
                0 <= i < lines.len() ==> (#[trigger] lines[i]).min <= lines[i].mean <= lines[i].max
        }),
{
    lemma_report_exists(records);
    lemma_aggregate_wf(records);
    lemma_report_sound(report_model(aggregate_model(records)), aggregate_model(records));
}

/// In the report of well formed summaries every mean lies between the least
/// and the greatest value of its key, and no key occurs twice.
pub proof fn lemma_report_sound(lines: Seq<Line>, m: Map<Seq<u8>, Summary>)
    requires
        is_report_of(lines, m),
        forall|k: Seq<u8>| #[trigger] m.contains_key(k) ==> m[k].wf(),
    ensures
        forall|i: int| 0 <= i < lines.len() ==> (#[trigger] lines[i]).min <= lines[i].mean <= lines[i].max,
        forall|i: int, j: int|
            0 <= i < lines.len() && 0 <= j < lines.len() && i != j ==> (#[trigger] lines[i]).key != (
            #[trigger] lines[j]).key,
{
    assert forall|i: int| 0 <= i < lines.len() implies (#[trigger] lines[i]).min <= lines[i].mean
        <= lines[i].max by {
        let s = m[lines[i].key];
        assert(m.contains_key(lines[i].key));
        lemma_mean_between(s.sum, s.count as int, s.min, s.max);
    }
    let keys = line_keys(lines);
    assert forall|i: int, j: int| 0 <= i < lines.len() && 0 <= j < lines.len() && i != j implies (
    #[trigger] lines[i]).key != (#[trigger] lines[j]).key by {
        assert(keys[i] == lines[i].key && keys[j] == lines[j].key);
        if i < j {
            lemma_key_lt_asymmetric(keys[i], keys[j]);
        } else {
            lemma_key_lt_asymmetric(keys[j], keys[i]);
        }
    }
}

/// The entries of the summary of `table`: one for each key, with the least
/// value, the mean and the greatest value, the keys in strictly ascending
/// byte order.
pub fn report(table: &Table) -> (lines: Vec<ReportLine>)
    requires
        table.wf(),
    ensures
        is_report_of(line_views(lines@), table@),
        line_views(lines@) == report_model(table@),
        lines@.len() == table.keys().len(),
        forall|i: int| 0 <= i < lines@.len() ==> (#[trigger] lines@[i]).min <= lines@[i].mean <= lines@[i].max,
{
    let n = table.len();
    let mut lines: Vec<ReportLine> = Vec::new();
    let mut i: usize = 0;
    while i < n
        invariant
            table.wf(),
            n == table.keys().len(),
            i <= n,
            lines@.len() == i,
            forall|j: int|
                0 <= j < i ==> (#[trigger] lines@[j])@ == line_of(table.keys()[j], table.summaries()[j])
                    && lines@[j].min <= lines@[j].mean <= lines@[j].max,
        decreases n - i,
    {
        let stats = table.stats_at(i);
        let key = slice_to_vec(table.key_at(i));
        let mean = mean_of(stats);
        lines.push(ReportLine { key, min: stats.min, mean, max: stats.max });
        i = i + 1;
    }
    proof {
        let views = line_views(lines@);
        table.lemma_view();
        assert(line_keys(views) =~= table.keys());
        assert forall|j: int| 0 <= j < views.len() implies table@.contains_key(
            (#[trigger] views[j]).key,
        ) && views[j] == line_of(views[j].key, table@[views[j].key]) by {
            assert(views[j] == lines@[j]@);
            assert(table@.contains_key(table.keys()[j]));
        }
        assert forall|k: Seq<u8>| #[trigger] table@.contains_key(k) implies exists|j: int|
            0 <= j < views.len() && (#[trigger] views[j]).key == k by {
            let j = choose|j: int| 0 <= j < table.keys().len() && #[trigger] table.keys()[j] == k;
            assert(views[j] == lines@[j]@);
            assert(views[j].key == k);
        }
        assert(is_report_of(views, table@));
        lemma_report_unique(views, report_model(table@), table@);
    }
    lines
}

/// Appends `bytes` to `out`.
fn push_bytes(out: &mut Vec<u8>, bytes: &[u8])
    ensures
        final(out)@ == old(out)@ + bytes@,
{
    let n = bytes.len();
    let mut i: usize = 0;
    while i < n
        invariant
            n == bytes@.len(),
            i <= n,
            out@ == old(out)@ + bytes@.take(i as int),
        decreases n - i,
    {
        out.push(bytes[i]);
        assert(out@ =~= old(out)@ + bytes@.take(i + 1));
        i = i + 1;
    }
    assert(bytes@.take(n as int) =~= bytes@);
}

/// Appends one entry to `out`: `key=min/mean/max`.
fn push_line(out: &mut Vec<u8>, line: &ReportLine)
    ensures
        final(out)@ == old(out)@ + render_line(line@),
{
    push_bytes(out, line.key.as_slice());
    out.push(EQUALS);
    push_tenths(out, line.min);
    out.push(SLASH);
    push_tenths(out, line.mean);
    out.push(SLASH);
    push_tenths(out, line.max);
    assert(final(out)@ =~= old(out)@ + render_line(line@));
}

/// The summary line of `lines`: `{k1=min/mean/max, ..., kn=min/mean/max}`,
/// each number with one fractional digit, and `{}` where there is no entry.
pub fn render(lines: &Vec<ReportLine>) -> (text: Vec<u8>)
    ensures
        text@ == render_summary(line_views(lines@)),
{
    let ghost views = line_views(lines@);
    let n = lines.len();
    let mut text: Vec<u8> = Vec::new();
    text.push(OPEN);
    let mut i: usize = 0;
    assert(text@ =~= seq![OPEN] + render_lines(views.take(0)));
    while i < n
        invariant
            n == lines@.len(),
            views == line_views(lines@),
            i <= n,
            text@ == seq![OPEN] + render_lines(views.take(i as int)),
        decreases n - i,
    {
        let ghost before = views.take(i as int);
        let ghost after = views.take(i + 1);
        proof {
            assert(after.drop_last() =~= before);
            assert(after.last() == lines@[i as int]@);
            assert(after[0] == views[0]);
        }
        if i > 0 {
            text.push(COMMA);
            text.push(SPACE);
        }
        push_line(&mut text, &lines[i]);
        assert(text@ =~= seq![OPEN] + render_lines(after));
        i = i + 1;
    }
    assert(views.take(n as int) =~= views);
    text.push(CLOSE);
    assert(text@ =~= render_summary(views));
    text
}

/// Reads every line of `buf` and gives the summary line of its records.
///
/// The first line that is neither a comment nor a record ends the run with
/// its error. A region without records gives `{}`.
pub fn summarize(buf: &[u8]) -> (result: Result<Vec<u8>, FormatError>)
    ensures
        match result {
            Ok(text) => parse_records(buf@) matches Ok(records) && text@ == summary_text(records),
            Err(e) => parse_records(buf@) matches Err(first) && first == e,
        },
{
    match aggregate(buf) {
        Err(e) => Err(e),
        Ok(table) => {
            let lines = report(&table);
            Ok(render(&lines))
        },
    }
}

} // verus!
