use vstd::prelude::*;

use crate::parse::{accumulate, dedup, id_seen_before, is_terminator, parsed, records, split_line, step};
use crate::record::{empty_cpu, CpuView};
use crate::text::{find_from, lemma_find_from, line_at, lines, lines_from};

verus! {

/// Whether the line `l` is a field line with the key that closes a record.
pub open spec fn is_terminator_line(l: Seq<char>) -> bool {
    l.len() > 0 && match split_line(l) {
        Some((key, _)) => is_terminator(key),
        None => false,
    }
}

/// How many lines of `ls` close a record.
pub open spec fn terminator_count(ls: Seq<Seq<char>>) -> nat
    decreases ls.len(),
{
    if ls.len() == 0 {
        0
    } else {
        (if is_terminator_line(ls[0]) {
            1nat
        } else {
            0nat
        }) + terminator_count(ls.drop_first())
    }
}

/// Whether no two records of `rs` share a physical id.
pub open spec fn ids_distinct(rs: Seq<CpuView>) -> bool {
    forall|i: int, j: int| 0 <= i < j < rs.len() ==> #[trigger] rs[i].id != #[trigger] rs[j].id
}

/// Reading lines keeps the records finished before them, in order, and adds one record for each
/// line that closes one.
pub proof fn lemma_accumulate_counts(ls: Seq<Seq<char>>, done: Seq<CpuView>, cur: CpuView)
    requires
        accumulate(ls, done, cur) is Ok,
    ensures
        accumulate(ls, done, cur)->Ok_0.len() == done.len() + terminator_count(ls),
        accumulate(ls, done, cur)->Ok_0.take(done.len() as int) == done,
    decreases ls.len(),
{
    if ls.len() > 0 {
        let (d, c) = step(done, cur, ls[0])->Ok_0;
        lemma_accumulate_counts(ls.drop_first(), d, c);
        let rs = accumulate(ls, done, cur)->Ok_0;
        if is_terminator_line(ls[0]) {
            assert(d == done.push(cur));
            assert(rs.take(done.len() as int) =~= rs.take(d.len() as int).take(done.len() as int));
            assert(d.take(done.len() as int) =~= done);
        } else {
            assert(d == done);
        }
    } else {
        assert(done.take(done.len() as int) =~= done);
    }
}

/// Each record that deduplication keeps is a record of `rs` that no earlier record shares an
/// id with, and it keeps each such record.
pub proof fn lemma_dedup_keeps_first(rs: Seq<CpuView>)
    ensures
        dedup(rs).len() <= rs.len(),
        forall|k: int|
            0 <= k < dedup(rs).len() ==> exists|i: int|
                0 <= i < rs.len() && !id_seen_before(rs, i) && rs[i] == #[trigger] dedup(rs)[k],
        forall|i: int|
            0 <= i < rs.len() && !id_seen_before(rs, i) ==> dedup(rs).contains(#[trigger] rs[i]),
        ids_distinct(dedup(rs)),
    decreases rs.len(),
{
    if rs.len() > 0 {
        let pre = rs.drop_last();
        let n = rs.len() - 1;
        lemma_dedup_keeps_first(pre);
        let d = dedup(pre);
        assert forall|i: int| 0 <= i < n implies id_seen_before(rs, i) == id_seen_before(pre, i) by {
            if id_seen_before(rs, i) {
                let j = choose|j: int| 0 <= j < i && #[trigger] rs[j].id == rs[i].id;
                assert(pre[j].id == pre[i].id);
            }
            if id_seen_before(pre, i) {
                let j = choose|j: int| 0 <= j < i && #[trigger] pre[j].id == pre[i].id;
                assert(rs[j].id == rs[i].id);
            }
        }
        assert forall|k: int| 0 <= k < d.len() implies exists|i: int|
            0 <= i < n && !id_seen_before(rs, i) && rs[i] == #[trigger] d[k] by {
            let i = choose|i: int| 0 <= i < pre.len() && !id_seen_before(pre, i) && pre[i] == d[k];
            assert(rs[i] == d[k]);
        }
        if !id_seen_before(rs, n) {
            let out = d.push(rs[n]);
            assert(dedup(rs) == out);
            assert forall|k: int| 0 <= k < out.len() implies exists|i: int|
                0 <= i < rs.len() && !id_seen_before(rs, i) && rs[i] == #[trigger] out[k] by {
                if k == d.len() {
                    assert(rs[n] == out[k]);
                } else {
                    assert(out[k] == d[k]);
                }
            }
            assert forall|i: int| 0 <= i < rs.len() && !id_seen_before(rs, i) implies out.contains(
                #[trigger] rs[i],
            ) by {
                if i == n {
                    assert(out[d.len() as int] == rs[i]);
                } else {
                    assert(pre[i] == rs[i]);
                    assert(d.contains(pre[i]));
                    let k = choose|k: int| 0 <= k < d.len() && d[k] == pre[i];
                    assert(out[k] == rs[i]);
                }
            }
            assert forall|a: int, b: int| 0 <= a < b < out.len() implies #[trigger] out[a].id
                != #[trigger] out[b].id by {
                if b == d.len() {
                    assert(out[a] == d[a]);
                    let i = choose|i: int|
                        0 <= i < n && !id_seen_before(rs, i) && rs[i] == #[trigger] d[a];
                    if rs[i].id == rs[n].id {
                        assert(id_seen_before(rs, n));
                    }
                } else {
                    assert(out[a] == d[a] && out[b] == d[b]);
                }
            }
        } else {
            assert(dedup(rs) == d);
            assert forall|i: int| 0 <= i < rs.len() && !id_seen_before(rs, i) implies d.contains(
                #[trigger] rs[i],
            ) by {
                assert(i < n);
                assert(pre[i] == rs[i]);
            }
        }
    }
}

/// Records whose physical ids are all different are all kept, in order.
pub proof fn lemma_dedup_distinct(rs: Seq<CpuView>)
    requires
        ids_distinct(rs),
    ensures
        dedup(rs) == rs,
    decreases rs.len(),
{
    if rs.len() > 0 {
        let pre = rs.drop_last();
        assert(ids_distinct(pre)) by {
            assert forall|i: int, j: int| 0 <= i < j < pre.len() implies #[trigger] pre[i].id
                != #[trigger] pre[j].id by {
                assert(rs[i].id != rs[j].id);
            }
        }
        lemma_dedup_distinct(pre);
        if id_seen_before(rs, rs.len() - 1) {
            let j = choose|j: int| 0 <= j < rs.len() - 1 && #[trigger] rs[j].id == rs[rs.len() - 1].id;
            assert(rs[j].id != rs[rs.len() - 1].id);
        }
        assert(pre.push(rs.last()) =~= rs);
    }
}

/// Where the records of `text` all have different physical ids, reading it gives exactly one
/// record per terminator line, in source order.
pub proof fn lemma_distinct_ids_all_kept(text: Seq<char>)
    requires
        records(text) is Ok,
        ids_distinct(records(text)->Ok_0),
    ensures
        parsed(text) == records(text),
        records(text)->Ok_0.len() == terminator_count(lines(text)),
{
    lemma_accumulate_counts(lines(text), Seq::empty(), empty_cpu());
    lemma_dedup_distinct(records(text)->Ok_0);
}

/// Reading `text` keeps, of the records that share a physical id, only the first in source
/// order: the result has no two records with one id, holds each record that no earlier record
/// shares an id with and no other, and has at most one record per terminator line.
pub proof fn lemma_first_record_per_id(text: Seq<char>)
    requires
        records(text) is Ok,
    ensures
        ({
            let rs = records(text)->Ok_0;
            let out = parsed(text)->Ok_0;
            &&& parsed(text) is Ok
            &&& ids_distinct(out)
            &&& forall|i: int|
                0 <= i < rs.len() && !id_seen_before(rs, i) ==> out.contains(#[trigger] rs[i])
            &&& forall|k: int|
                0 <= k < out.len() ==> exists|i: int|
                    0 <= i < rs.len() && !id_seen_before(rs, i) && rs[i] == #[trigger] out[k]
            &&& out.len() <= terminator_count(lines(text))
        }),
{
    let rs = records(text)->Ok_0;
    lemma_accumulate_counts(lines(text), Seq::empty(), empty_cpu());
    lemma_dedup_keeps_first(rs);
    assert(parsed(text)->Ok_0 == dedup(rs));
}


proof fn lemma_find_in_prefix(a: Seq<char>, b: Seq<char>, i: int, c: char)
    requires
        0 <= i < a.len(),
        a.last() == c,
    ensures
        find_from(a + b, i, c) == find_from(a, i, c),
        find_from(a, i, c) < a.len(),
    decreases a.len() - i,
{
    if a[i] != c {
        lemma_find_in_prefix(a, b, i + 1, c);
    }
}

proof fn lemma_find_in_suffix(a: Seq<char>, b: Seq<char>, k: int, c: char)
    requires
        0 <= k <= b.len(),
    ensures
        find_from(a + b, a.len() + k, c) == a.len() + find_from(b, k, c),
    decreases b.len() - k,
{
    if k < b.len() {
        assert((a + b)[a.len() + k] == b[k]);
        lemma_find_in_suffix(a, b, k + 1, c);
    }
}

proof fn lemma_lines_in_suffix(a: Seq<char>, b: Seq<char>, k: int)
    requires
        0 <= k,
    ensures
        lines_from(a + b, a.len() + k) == lines_from(b, k),
    decreases b.len() + 1 - k,
{
    if k < b.len() {
        let e = find_from(b, k, '\n');
        lemma_find_from(b, k, '\n');
        lemma_find_in_suffix(a, b, k, '\n');
        assert((a + b).subrange(a.len() + k, a.len() + e) =~= b.subrange(k, e));
        assert(line_at(a + b, a.len() + k, a.len() + e) == line_at(b, k, e));
        lemma_lines_in_suffix(a, b, e + 1);
    }
}

proof fn lemma_lines_concat(a: Seq<char>, b: Seq<char>, i: int)
    requires
        0 <= i <= a.len(),
        a.len() > 0 ==> a.last() == '\n',
    ensures
        lines_from(a + b, i) == lines_from(a, i) + lines(b),
    decreases a.len() - i,
{
    if i == a.len() {
        lemma_lines_in_suffix(a, b, 0);
        assert(lines_from(a, i) + lines(b) =~= lines(b));
    } else {
        let e = find_from(a, i, '\n');
        lemma_find_in_prefix(a, b, i, '\n');
        lemma_find_from(a, i, '\n');
        assert((a + b).subrange(i, e) =~= a.subrange(i, e));
        assert(line_at(a + b, i, e) == line_at(a, i, e));
        lemma_lines_concat(a, b, e + 1);
        assert(seq![line_at(a, i, e)] + (lines_from(a, e + 1) + lines(b)) =~= (seq![
            line_at(a, i, e),
        ] + lines_from(a, e + 1)) + lines(b));
    }
}

proof fn lemma_accumulate_tail(
    ls: Seq<Seq<char>>,
    tail: Seq<Seq<char>>,
    done: Seq<CpuView>,
    cur: CpuView,
)
    requires
        terminator_count(tail) == 0,
        accumulate(ls + tail, done, cur) is Ok,
    ensures
        accumulate(ls, done, cur) == accumulate(ls + tail, done, cur),
    decreases ls.len(),
{
    if ls.len() == 0 {
        assert(ls + tail =~= tail);
        lemma_accumulate_counts(tail, done, cur);
        let rs = accumulate(tail, done, cur)->Ok_0;
        assert(rs =~= rs.take(done.len() as int));
    } else {
        assert((ls + tail)[0] == ls[0]);
        assert((ls + tail).drop_first() =~= ls.drop_first() + tail);
        let (d, c) = step(done, cur, ls[0])->Ok_0;
        lemma_accumulate_tail(ls.drop_first(), tail, d, c);
    }
}

/// A record that no terminator closes is never read: where no line of the text `b` closes a
/// record, and `a` is empty or ends with a newline, reading `a` followed by `b` gives what
/// reading `a` alone gives, whenever it succeeds.
pub proof fn lemma_unterminated_tail_dropped(a: Seq<char>, b: Seq<char>)
    requires
        a.len() > 0 ==> a.last() == '\n',
        terminator_count(lines(b)) == 0,
        records(a + b) is Ok,
    ensures
        records(a) == records(a + b),
        parsed(a) == parsed(a + b),
{
    lemma_lines_concat(a, b, 0);
    lemma_accumulate_tail(lines(a), lines(b), Seq::empty(), empty_cpu());
}


proof fn lemma_accumulate_delimited(ls: Seq<Seq<char>>, done: Seq<CpuView>, cur: CpuView)
    requires
        accumulate(ls, done, cur) is Ok,
    ensures
        forall|k: int| 0 <= k < ls.len() && #[trigger] ls[k].len() > 0 ==> split_line(ls[k]) is Some,
    decreases ls.len(),
{
    if ls.len() > 0 {
        let (d, c) = step(done, cur, ls[0])->Ok_0;
        lemma_accumulate_delimited(ls.drop_first(), d, c);
        assert forall|k: int| 0 <= k < ls.len() && #[trigger] ls[k].len() > 0 implies split_line(
            ls[k],
        ) is Some by {
            if k > 0 {
                assert(ls[k] == ls.drop_first()[k - 1]);
            }
        }
    }
}

/// A line without a delimiter is never skipped: where reading `text` succeeds, each of its
/// non-empty lines holds a `:` between key and value.
pub proof fn lemma_success_means_delimited(text: Seq<char>)
    requires
        records(text) is Ok,
    ensures
        forall|k: int|
            0 <= k < lines(text).len() && #[trigger] lines(text)[k].len() > 0 ==> split_line(
                lines(text)[k],
            ) is Some,
{
    lemma_accumulate_delimited(lines(text), Seq::empty(), empty_cpu());
}

} // verus!
