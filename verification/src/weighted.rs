//! The weighted working set: every input color is quantized and tallied into
//! a deduplicated list of `(color, count)` entries, which is then sorted by
//! descending count and optionally truncated to the most frequent entries.

use vstd::prelude::*;
use vstd::pervasive::VecAdditionalExecFns;
use vstd::seq_lib::lemma_seq_contains_after_push;
use crate::color::Color;
use crate::color::quantize;
use crate::color::quantize_spec;

verus! {

/// How many times `c` occurs in `s`.
pub open spec fn occurrences(s: Seq<Color>, c: Color) -> int
    decreases s.len(),
{
    if s.len() == 0 {
        0
    } else {
        occurrences(s.drop_last(), c) + if s.last() == c {
            1int
        } else {
            0int
        }
    }
}

/// The input sequence with every color quantized by the factor.
pub open spec fn quantized_view(colors: Seq<Color>, factor: int) -> Seq<Color> {
    colors.map_values(|c: Color| quantize_spec(c, factor))
}

/// Whether some entry carries the color `c`.
pub open spec fn has_key(es: Seq<(Color, usize)>, c: Color) -> bool {
    exists|i: int| 0 <= i < es.len() && (#[trigger] es[i]).0 == c
}

/// The count attached to `c`, or zero when no entry carries it.
pub open spec fn weight_in(es: Seq<(Color, usize)>, c: Color) -> int
    decreases es.len(),
{
    if es.len() == 0 {
        0
    } else if es.last().0 == c {
        es.last().1 as int
    } else {
        weight_in(es.drop_last(), c)
    }
}

/// No two entries carry the same color.
pub open spec fn distinct_keys(es: Seq<(Color, usize)>) -> bool {
    forall|i: int, j: int|
        0 <= i < j < es.len() ==> (#[trigger] es[i]).0 != (#[trigger] es[j]).0
}

/// The total of all counts.
pub open spec fn sum_counts(es: Seq<(Color, usize)>) -> int
    decreases es.len(),
{
    if es.len() == 0 {
        0
    } else {
        sum_counts(es.drop_last()) + es.last().1
    }
}

/// Counts never increase along the list.
pub open spec fn sorted_desc(es: Seq<(Color, usize)>) -> bool {
    forall|i: int, j: int| 0 <= i < j < es.len() ==> (#[trigger] es[i]).1 >= (#[trigger] es[j]).1
}

/// A color that no entry carries weighs nothing; with distinct keys, the
/// entry that carries it fixes its weight.
proof fn lemma_weight_in_absent(es: Seq<(Color, usize)>, c: Color)
    requires
        !has_key(es, c),
    ensures
        weight_in(es, c) == 0,
    decreases es.len(),
{
    if es.len() > 0 {
        assert(es[es.len() - 1].0 != c);
        assert(forall|i: int|
            0 <= i < es.drop_last().len() ==> (#[trigger] es.drop_last()[i]) == es[i]);
        lemma_weight_in_absent(es.drop_last(), c);
    }
}

/// With distinct keys, the weight of an entry's color is that entry's count.
proof fn lemma_weight_in_at(es: Seq<(Color, usize)>, j: int)
    requires
        distinct_keys(es),
        0 <= j < es.len(),
    ensures
        weight_in(es, es[j].0) == es[j].1,
    decreases es.len(),
{
    if j == es.len() - 1 {
    } else {
        assert(es.last().0 != es[j].0);
        assert(forall|i: int|
            0 <= i < es.drop_last().len() ==> (#[trigger] es.drop_last()[i]) == es[i]);
        lemma_weight_in_at(es.drop_last(), j);
    }
}

/// Raising one entry's count changes only that color's weight.
proof fn lemma_weight_in_update(es: Seq<(Color, usize)>, j: int, w: usize, c: Color)
    requires
        distinct_keys(es),
        0 <= j < es.len(),
    ensures
        weight_in(es.update(j, (es[j].0, w)), c) == if c == es[j].0 {
            w as int
        } else {
            weight_in(es, c)
        },
    decreases es.len(),
{
    let up = es.update(j, (es[j].0, w));
    if j == es.len() - 1 {
        assert(up.drop_last() =~= es.drop_last());
        if c != es[j].0 {
            assert(weight_in(up, c) == weight_in(up.drop_last(), c));
        }
    } else {
        assert(up.last() == es.last());
        assert(es.last().0 != es[j].0);
        assert(up.drop_last() =~= es.drop_last().update(j, (es[j].0, w)));
        assert(forall|i: int|
            0 <= i < es.drop_last().len() ==> (#[trigger] es.drop_last()[i]) == es[i]);
        assert(es.drop_last()[j] == es[j]);
        lemma_weight_in_update(es.drop_last(), j, w, c);
    }
}

/// Raising one entry's count raises the total by the difference.
proof fn lemma_sum_counts_update(es: Seq<(Color, usize)>, j: int, w: usize)
    requires
        0 <= j < es.len(),
    ensures
        sum_counts(es.update(j, (es[j].0, w))) == sum_counts(es) - es[j].1 + w,
    decreases es.len(),
{
    let up = es.update(j, (es[j].0, w));
    if j == es.len() - 1 {
        assert(up.drop_last() =~= es.drop_last());
    } else {
        assert(up.last() == es.last());
        assert(up.drop_last() =~= es.drop_last().update(j, (es[j].0, w)));
        assert(es.drop_last()[j] == es[j]);
        lemma_sum_counts_update(es.drop_last(), j, w);
    }
}

/// Appending an entry adds its count and weighs in only for its color.
proof fn lemma_push_entry(es: Seq<(Color, usize)>, e: (Color, usize), c: Color)
    ensures
        weight_in(es.push(e), c) == if e.0 == c {
            e.1 as int
        } else {
            weight_in(es, c)
        },
        sum_counts(es.push(e)) == sum_counts(es) + e.1,
{
    assert(es.push(e).drop_last() =~= es);
    assert(es.push(e).last() == e);
}

/// A prefix never outweighs the whole list.
pub proof fn lemma_sum_counts_prefix(es: Seq<(Color, usize)>, j: int)
    requires
        0 <= j <= es.len(),
    ensures
        sum_counts(es.take(j)) <= sum_counts(es),
    decreases es.len() - j,
{
    if j == es.len() {
        assert(es.take(j) =~= es);
    } else {
        assert(es.take(j + 1).drop_last() =~= es.take(j));
        assert(es.take(j + 1).last() == es[j]);
        lemma_sum_counts_prefix(es, j + 1);
    }
}

/// One entry's count raised by one; with distinct keys, the entry that
/// carries the color.
pub open spec fn bump_key(es: Seq<(Color, usize)>, c: Color) -> Seq<(Color, usize)>
    decreases es.len(),
{
    if es.len() == 0 {
        es
    } else if es.last().0 == c {
        es.drop_last().push((c, (es.last().1 + 1) as usize))
    } else {
        bump_key(es.drop_last(), c).push(es.last())
    }
}

/// The tally of a color sequence, processed in order: a new color joins at
/// the end with count one, a seen color's entry is bumped in place — so the
/// entries stand in first-occurrence order.
pub open spec fn tally_spec(qs: Seq<Color>) -> Seq<(Color, usize)>
    decreases qs.len(),
{
    if qs.len() == 0 {
        Seq::empty()
    } else {
        let rest = tally_spec(qs.drop_last());
        if has_key(rest, qs.last()) {
            bump_key(rest, qs.last())
        } else {
            rest.push((qs.last(), 1usize))
        }
    }
}

/// With distinct keys, bumping a color is updating its entry in place.
proof fn lemma_bump_key(es: Seq<(Color, usize)>, j: int)
    requires
        distinct_keys(es),
        0 <= j < es.len(),
    ensures
        bump_key(es, es[j].0) == es.update(j, (es[j].0, (es[j].1 + 1) as usize)),
    decreases es.len(),
{
    let c = es[j].0;
    if j == es.len() - 1 {
        assert(bump_key(es, c) =~= es.update(j, (c, (es[j].1 + 1) as usize)));
    } else {
        assert(es.last().0 != c);
        assert(forall|i: int|
            0 <= i < es.drop_last().len() ==> (#[trigger] es.drop_last()[i]) == es[i]);
        lemma_bump_key(es.drop_last(), j);
        assert(bump_key(es, c) == es.drop_last().update(j, (c, (es[j].1 + 1) as usize)).push(
            es.last(),
        ));
        assert(es.drop_last().update(j, (c, (es[j].1 + 1) as usize)).push(es.last()) =~= es.update(
            j,
            (c, (es[j].1 + 1) as usize),
        ));
    }
}

/// Where a new entry lands in a descending-count list: after every entry
/// whose count is at least its own, before the first smaller one — so
/// entries of equal count keep their insertion order.
pub open spec fn insert_pos_spec(es: Seq<(Color, usize)>, cnt: int) -> int
    decreases es.len(),
{
    if es.len() == 0 {
        0
    } else if es[0].1 < cnt {
        0
    } else {
        1 + insert_pos_spec(es.drop_first(), cnt)
    }
}

/// The stable descending-count sort: the entries are inserted in input
/// order, each after all entries counting at least as much, so ties keep
/// their input order.
pub open spec fn stable_sort_desc(es: Seq<(Color, usize)>) -> Seq<(Color, usize)>
    decreases es.len(),
{
    if es.len() == 0 {
        Seq::empty()
    } else {
        let rest = stable_sort_desc(es.drop_last());
        rest.insert(insert_pos_spec(rest, es.last().1 as int), es.last())
    }
}

/// The insertion position is the first whose count falls below the new one.
proof fn lemma_insert_pos_spec(es: Seq<(Color, usize)>, cnt: int)
    ensures
        0 <= insert_pos_spec(es, cnt) <= es.len(),
        forall|i: int| 0 <= i < insert_pos_spec(es, cnt) ==> (#[trigger] es[i]).1 >= cnt,
        insert_pos_spec(es, cnt) < es.len() ==> es[insert_pos_spec(es, cnt)].1 < cnt,
    decreases es.len(),
{
    if es.len() > 0 && !(es[0].1 < cnt) {
        lemma_insert_pos_spec(es.drop_first(), cnt);
        assert(forall|i: int|
            0 <= i < es.drop_first().len() ==> (#[trigger] es.drop_first()[i]) == es[i + 1]);
        let p = insert_pos_spec(es, cnt);
        assert forall|i: int| 0 <= i < p implies (#[trigger] es[i]).1 >= cnt by {
            if i > 0 {
                assert(es.drop_first()[i - 1].1 >= cnt);
            }
        }
    }
}

/// An inserted entry adds its count to the total and joins the entries.
proof fn lemma_insert_entry(es: Seq<(Color, usize)>, pos: int, x: (Color, usize), q: (Color, usize))
    requires
        0 <= pos <= es.len(),
    ensures
        es.insert(pos, x).contains(q) <==> (es.contains(q) || q == x),
        sum_counts(es.insert(pos, x)) == sum_counts(es) + x.1,
    decreases es.len(),
{
    let ins = es.insert(pos, x);
    es.insert_ensures(pos, x);
    if pos == es.len() {
        assert(ins =~= es.push(x));
        lemma_push_entry(es, x, q.0);
        lemma_seq_contains_after_push(es, x, q);
    } else {
        assert(ins.last() == es.last());
        assert(ins.drop_last() =~= es.drop_last().insert(pos, x)) by {
            es.drop_last().insert_ensures(pos, x);
        }
        lemma_insert_entry(es.drop_last(), pos, x, q);
        // contains: map indices across the insertion point
        if ins.contains(q) {
            let i = choose|i: int| 0 <= i < ins.len() && ins[i] == q;
            if i < pos {
                assert(es[i] == q);
            } else if i == pos {
                assert(q == x);
            } else {
                assert(es[i - 1] == q);
            }
        }
        if es.contains(q) {
            let i = choose|i: int| 0 <= i < es.len() && es[i] == q;
            if i < pos {
                assert(ins[i] == q);
            } else {
                assert(ins[i + 1] == q);
            }
        }
        assert(ins[pos] == x);
    }
}

/// Inserting a fresh key keeps the keys distinct.
proof fn lemma_insert_distinct(es: Seq<(Color, usize)>, pos: int, x: (Color, usize))
    requires
        distinct_keys(es),
        !has_key(es, x.0),
        0 <= pos <= es.len(),
    ensures
        distinct_keys(es.insert(pos, x)),
{
    let ins = es.insert(pos, x);
    es.insert_ensures(pos, x);
    assert forall|i: int, j: int| 0 <= i < j < ins.len() implies (#[trigger] ins[i]).0 != (
    #[trigger] ins[j]).0 by {
        if i == pos {
            assert(ins[j] == es[j - 1]);
            assert(es[j - 1].0 != x.0);
        } else if j == pos {
            assert(ins[i] == es[i]);
            assert(es[i].0 != x.0);
        } else {
            let i0 = if i < pos {
                i
            } else {
                i - 1
            };
            let j0 = if j < pos {
                j
            } else {
                j - 1
            };
            assert(ins[i] == es[i0] && ins[j] == es[j0]);
            assert(es[i0].0 != es[j0].0);
        }
    }
}

/// Inserting at the first index whose count falls short keeps the list
/// sorted by descending count.
proof fn lemma_insert_sorted(es: Seq<(Color, usize)>, pos: int, x: (Color, usize))
    requires
        sorted_desc(es),
        0 <= pos <= es.len(),
        forall|i: int| 0 <= i < pos ==> (#[trigger] es[i]).1 >= x.1,
        pos < es.len() ==> es[pos].1 < x.1,
    ensures
        sorted_desc(es.insert(pos, x)),
{
    let ins = es.insert(pos, x);
    es.insert_ensures(pos, x);
    assert forall|i: int, j: int| 0 <= i < j < ins.len() implies (#[trigger] ins[i]).1 >= (
    #[trigger] ins[j]).1 by {
        if i == pos {
            assert(ins[j] == es[j - 1]);
            assert(es[pos].1 <= x.1 || j - 1 == pos);
            assert(es[j - 1].1 <= x.1);
        } else if j == pos {
            assert(ins[i] == es[i]);
        } else {
            let i0 = if i < pos {
                i
            } else {
                i - 1
            };
            let j0 = if j < pos {
                j
            } else {
                j - 1
            };
            assert(ins[i] == es[i0] && ins[j] == es[j0]);
            if i0 < j0 {
                assert(es[i0].1 >= es[j0].1);
            }
        }
    }
}

/// The first position whose count falls below `cnt`, scanning left to right.
fn insert_pos(sorted: &Vec<(Color, usize)>, cnt: usize) -> (pos: usize)
    ensures
        pos <= sorted@.len(),
        forall|i: int| 0 <= i < pos ==> (#[trigger] sorted@[i]).1 >= cnt,
        pos < sorted@.len() ==> sorted@[pos as int].1 < cnt,
{
    let mut p: usize = 0;
    while p < sorted.len()
        invariant
            p <= sorted@.len(),
            forall|i: int| 0 <= i < p ==> (#[trigger] sorted@[i]).1 >= cnt,
        decreases sorted@.len() - p,
    {
        if sorted[p].1 < cnt {
            return p;
        }
        p = p + 1;
    }
    p
}

/// Sorts the entries by descending count with a stable insertion sort: ties
/// keep their first-occurrence order.
pub(crate) fn sort_by_count_desc(entries: &Vec<(Color, usize)>) -> (sorted: Vec<(Color, usize)>)
    requires
        distinct_keys(entries@),
    ensures
        sorted@ == stable_sort_desc(entries@),
        sorted@.len() == entries@.len(),
        sorted_desc(sorted@),
        distinct_keys(sorted@),
        forall|q: (Color, usize)| #[trigger] sorted@.contains(q) <==> entries@.contains(q),
        sum_counts(sorted@) == sum_counts(entries@),
{
    let mut sorted: Vec<(Color, usize)> = Vec::new();
    let mut i: usize = 0;
    proof {
        assert(entries@.take(0) =~= Seq::<(Color, usize)>::empty());
    }
    while i < entries.len()
        invariant
            i <= entries@.len(),
            distinct_keys(entries@),
            sorted@ == stable_sort_desc(entries@.take(i as int)),
            sorted@.len() == i,
            sorted_desc(sorted@),
            distinct_keys(sorted@),
            forall|q: (Color, usize)| #[trigger]
                sorted@.contains(q) <==> entries@.take(i as int).contains(q),
            sum_counts(sorted@) == sum_counts(entries@.take(i as int)),
        decreases entries@.len() - i,
    {
        let x = entries[i];
        let pos = insert_pos(&sorted, x.1);
        let ghost old_sorted = sorted@;
        proof {
            if has_key(old_sorted, x.0) {
                let j = choose|j: int| 0 <= j < old_sorted.len() && (#[trigger] old_sorted[j]).0
                    == x.0;
                assert(old_sorted.contains(old_sorted[j]));
                let k = choose|k: int|
                    0 <= k < i && (#[trigger] entries@.take(i as int)[k]) == old_sorted[j];
                assert(entries@[k].0 == entries@[i as int].0 && k < i);
                assert(false);
            }
            lemma_insert_distinct(old_sorted, pos as int, x);
            lemma_insert_sorted(old_sorted, pos as int, x);
            // the scanned position is the one the stable sort prescribes
            lemma_insert_pos_spec(old_sorted, x.1 as int);
            let ps = insert_pos_spec(old_sorted, x.1 as int);
            if ps < pos {
                assert(old_sorted[ps].1 >= x.1 && old_sorted[ps].1 < x.1);
            }
            if pos < ps {
                assert(old_sorted[pos as int].1 >= x.1 && old_sorted[pos as int].1 < x.1);
            }
            assert(ps == pos);
        }
        sorted.insert(pos, x);
        i = i + 1;
        proof {
            assert(sorted@ == old_sorted.insert(pos as int, x));
            assert(entries@.take(i as int) =~= entries@.take(i as int - 1).push(x));
            assert forall|q: (Color, usize)| #[trigger]
                sorted@.contains(q) <==> entries@.take(i as int).contains(q) by {
                lemma_insert_entry(old_sorted, pos as int, x, q);
                lemma_seq_contains_after_push(entries@.take(i as int - 1), x, q);
            }
            lemma_insert_entry(old_sorted, pos as int, x, x);
            lemma_push_entry(entries@.take(i as int - 1), x, x.0);
            assert(entries@.take(i as int).drop_last() =~= entries@.take(i as int - 1));
            assert(entries@.take(i as int).last() == x);
            assert(sorted@ == stable_sort_desc(entries@.take(i as int)));
        }
    }
    proof {
        assert(entries@.take(entries@.len() as int) =~= entries@);
    }
    sorted
}

/// Copies the first `m` entries.
fn prefix_entries(v: &Vec<(Color, usize)>, m: usize) -> (out: Vec<(Color, usize)>)
    requires
        m <= v@.len(),
    ensures
        out@ == v@.take(m as int),
{
    let mut out: Vec<(Color, usize)> = Vec::new();
    let mut j: usize = 0;
    proof {
        assert(v@.take(0) =~= Seq::<(Color, usize)>::empty());
    }
    while j < m
        invariant
            j <= m <= v@.len(),
            out@ == v@.take(j as int),
        decreases m - j,
    {
        out.push(v[j]);
        proof {
            assert(v@.take(j as int + 1) =~= v@.take(j as int).push(v@[j as int]));
        }
        j = j + 1;
    }
    out
}

/// Finds the entry that carries `c`, if any.
fn find_key(es: &Vec<(Color, usize)>, c: Color) -> (r: Option<usize>)
    ensures
        match r {
            Some(j) => j < es@.len() && es@[j as int].0 == c,
            None => !has_key(es@, c),
        },
{
    let mut j: usize = 0;
    while j < es.len()
        invariant
            j <= es@.len(),
            forall|i: int| 0 <= i < j ==> (#[trigger] es@[i]).0 != c,
        decreases es@.len() - j,
    {
        if es[j].0.r == c.r && es[j].0.g == c.g && es[j].0.b == c.b {
            assert(es@[j as int].0 == c);
            return Some(j);
        }
        j = j + 1;
    }
    None
}

/// Tallies the quantized input colors: one entry per distinct quantized
/// color, carrying how often it occurs, in first-occurrence order.
pub(crate) fn tally_colors(colors: &Vec<Color>, factor: i32) -> (es: Vec<(Color, usize)>)
    ensures
        es@ == tally_spec(quantized_view(colors@, factor as int)),
        distinct_keys(es@),
        forall|c: Color| #[trigger]
            weight_in(es@, c) == occurrences(quantized_view(colors@, factor as int), c),
        forall|c: Color| has_key(es@, c) ==> weight_in(es@, c) >= 1,
        forall|i: int| 0 <= i < es@.len() ==> (#[trigger] es@[i]).1 >= 1,
        forall|i: int| 0 <= i < es@.len() ==> has_key(es@, (#[trigger] es@[i]).0),
        sum_counts(es@) == colors@.len(),
        es@.len() <= colors@.len(),
{
    let ghost qs = quantized_view(colors@, factor as int);
    let mut es: Vec<(Color, usize)> = Vec::new();
    let mut idx: usize = 0;
    proof {
        assert(qs.take(0) =~= Seq::<Color>::empty());
    }
    while idx < colors.len()
        invariant
            idx <= colors@.len(),
            qs == quantized_view(colors@, factor as int),
            qs.len() == colors@.len(),
            es@ == tally_spec(qs.take(idx as int)),
            distinct_keys(es@),
            forall|c: Color| #[trigger] weight_in(es@, c) == occurrences(qs.take(idx as int), c),
            forall|i: int| 0 <= i < es@.len() ==> 1 <= (#[trigger] es@[i]).1 <= idx,
            sum_counts(es@) == idx,
            es@.len() <= idx,
        decreases colors@.len() - idx,
    {
        let q = quantize(&colors[idx], factor);
        proof {
            assert(qs[idx as int] == q);
            assert(qs.take(idx as int + 1).drop_last() =~= qs.take(idx as int));
            assert(qs.take(idx as int + 1).last() == q);
            assert(forall|c: Color| #[trigger] occurrences(qs.take(idx as int + 1), c)
                == occurrences(qs.take(idx as int), c) + if c == q {
                1int
            } else {
                0int
            });
        }
        let ghost old_es = es@;
        match find_key(&es, q) {
            Some(j) => {
                let w = es[j].1;
                proof {
                    lemma_weight_in_at(es@, j as int);
                    lemma_sum_counts_update(es@, j as int, (w + 1) as usize);
                    assert forall|c: Color| #[trigger]
                        weight_in(old_es.update(j as int, (old_es[j as int].0, (w + 1) as usize)),
                            c) == occurrences(qs.take(idx as int + 1), c) by {
                        lemma_weight_in_update(old_es, j as int, (w + 1) as usize, c);
                    }
                }
                es.set(j, (q, w + 1));
                proof {
                    assert(es@ =~= old_es.update(j as int, (old_es[j as int].0, (w + 1) as usize)));
                    assert(sum_counts(es@) == idx + 1);
                    assert(has_key(old_es, q));
                    lemma_bump_key(old_es, j as int);
                    assert(es@ == tally_spec(qs.take(idx as int + 1)));
                }
            },
            None => {
                proof {
                    lemma_weight_in_absent(es@, q);
                }
                es.push((q, 1));
                proof {
                    assert(es@ == old_es.push((q, 1usize)));
                    assert forall|c: Color| #[trigger] weight_in(es@, c) == occurrences(
                        qs.take(idx as int + 1),
                        c,
                    ) by {
                        lemma_push_entry(old_es, (q, 1usize), c);
                        assert(weight_in(old_es, c) == occurrences(qs.take(idx as int), c));
                        assert(occurrences(qs.take(idx as int + 1), c) == occurrences(
                            qs.take(idx as int),
                            c,
                        ) + if c == q {
                            1int
                        } else {
                            0int
                        });
                    }
                    lemma_push_entry(old_es, (q, 1usize), q);
                    assert(sum_counts(es@) == idx + 1);
                    assert(es@ == tally_spec(qs.take(idx as int + 1)));
                }
            },
        }
        idx = idx + 1;
    }
    proof {
        assert(qs.take(colors@.len() as int) =~= qs);
        assert forall|c: Color| has_key(es@, c) implies weight_in(es@, c) >= 1 by {
            let j = choose|j: int| 0 <= j < es@.len() && (#[trigger] es@[j]).0 == c;
            lemma_weight_in_at(es@, j);
        }
    }
    es
}

/// With a unit factor, quantization leaves every input color unchanged, so
/// the tally of the quantized view is the exact frequency count of the input.
pub proof fn lemma_unit_factor_tally(colors: Seq<Color>)
    ensures
        quantized_view(colors, 1) == colors,
{
    assert forall|i: int| 0 <= i < colors.len() implies (#[trigger] quantized_view(colors, 1)[i])
        == colors[i] by {
        crate::color::lemma_quantize_identity(colors[i]);
    }
    assert(quantized_view(colors, 1) =~= colors);
}

/// How many entries the working list keeps: all of them, or the requested
/// cap when it is smaller.
pub open spec fn eff_top(top_num: Option<usize>, n: int) -> int {
    match top_num {
        Option::None => n,
        Option::Some(t) => if t <= n {
            t as int
        } else {
            n
        },
    }
}

/// Builds the working color list: the entries sorted by descending count
/// (stable), truncated to the requested number of most frequent colors.
/// Every entry kept counts at least as much as every entry dropped.
pub(crate) fn select_working(entries: &Vec<(Color, usize)>, top_num: Option<usize>) -> (wl: Vec<
    (Color, usize),
>)
    requires
        distinct_keys(entries@),
    ensures
        wl@ == stable_sort_desc(entries@).take(eff_top(top_num, entries@.len() as int)),
        wl@.len() == eff_top(top_num, entries@.len() as int),
        distinct_keys(wl@),
        sorted_desc(wl@),
        forall|q: (Color, usize)| #[trigger] wl@.contains(q) ==> entries@.contains(q),
        sum_counts(wl@) <= sum_counts(entries@),
        forall|q: (Color, usize), i: int|
            entries@.contains(q) && !(#[trigger] wl@.contains(q)) && 0 <= i < wl@.len() ==> (
            #[trigger] wl@[i]).1 >= q.1,
        (forall|k: int| 0 <= k < entries@.len() ==> (#[trigger] entries@[k]).1 >= 1) ==> (forall|
            i: int,
        | 0 <= i < wl@.len() ==> (#[trigger] wl@[i]).1 >= 1),
{
    let sorted = sort_by_count_desc(entries);
    let m: usize = match top_num {
        Option::None => sorted.len(),
        Option::Some(t) => if t <= sorted.len() {
            t
        } else {
            sorted.len()
        },
    };
    let wl = prefix_entries(&sorted, m);
    proof {
        let wlv = wl@;
        let sv = sorted@;
        assert(forall|i: int| 0 <= i < m ==> (#[trigger] wlv[i]) == sv[i]);
        lemma_sum_counts_prefix(sv, m as int);
        assert forall|q: (Color, usize)| #[trigger] wlv.contains(q) implies entries@.contains(
            q,
        ) by {
            let i = choose|i: int| 0 <= i < wlv.len() && wlv[i] == q;
            assert(sv[i] == q);
            assert(sv.contains(q));
        }
        assert forall|q: (Color, usize), i: int|
            entries@.contains(q) && !(#[trigger] wlv.contains(q)) && 0 <= i < wlv.len() implies (
        #[trigger] wlv[i]).1 >= q.1 by {
            assert(sv.contains(q));
            let j = choose|j: int| 0 <= j < sv.len() && sv[j] == q;
            if j < m {
                assert(wlv[j] == q);
                assert(wlv.contains(q));
            } else {
                assert(sv[i].1 >= sv[j].1);
            }
        }
        if forall|k: int| 0 <= k < entries@.len() ==> (#[trigger] entries@[k]).1 >= 1 {
            assert forall|i: int| 0 <= i < wlv.len() implies (#[trigger] wlv[i]).1 >= 1 by {
                assert(wlv.contains(wlv[i]));
                assert(entries@.contains(wlv[i]));
                let k = choose|k: int| 0 <= k < entries@.len() && entries@[k] == wlv[i];
                assert(entries@[k].1 >= 1);
            }
        }
    }
    wl
}

} // verus!
