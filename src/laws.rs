//! Properties that relate several operations of the library.
use vstd::prelude::*;

use crate::category::{
    default_info, has_key, lemma_name_lt_irreflexive, normal_name, parses, sorted_keys, stored_form,
    CategoryInfo,
};
use crate::costmap::{bucket_total, category_total};
use crate::datamanager::{earliest, key_of, latest, lemma_extremes, sorted_by, storage_index};
use crate::date::{increasing, is_run, lemma_bucket, lemma_run, Date};
use crate::entry::EntryModel;
use crate::organize::{GroupBy, SortBy};
use crate::text::{alphabetic, all_white, lemma_trim_padding, lower_of, trimmed, white_space};

verus! {

broadcast use vstd::seq_lib::group_to_multiset_ensures;

/// Names that differ only by case, or by white space around them, are stored
/// (and so displayed) as the same name: padding an accepted text with white
/// space keeps it accepted with the same stored form, and texts whose trimmed
/// forms lower-case alike get equal stored forms, which are normal names.
pub proof fn lemma_parse_ignores_case(a: Seq<char>, b: Seq<char>, w1: Seq<char>, w2: Seq<char>)
    requires
        parses(a),
        parses(b),
        all_white(w1),
        all_white(w2),
    ensures
        parses(w1 + a + w2),
        stored_form(w1 + a + w2) == stored_form(a),
        lower_of(trimmed(a)) == lower_of(trimmed(b)) ==> stored_form(a) == stored_form(b),
        normal_name(stored_form(a)),
{
    lemma_padded_parses(a, w1, w2);
}

proof fn lemma_padded_parses(a: Seq<char>, w1: Seq<char>, w2: Seq<char>)
    requires
        parses(a),
        all_white(w1),
        all_white(w2),
    ensures
        parses(w1 + a + w2),
        stored_form(w1 + a + w2) == stored_form(a),
{
    lemma_trim_padding(w1, a, w2);
    let p = w1 + a + w2;
    assert forall|i: int| 0 <= i < p.len() implies alphabetic(p[i]) || white_space(p[i]) by {
        if i < w1.len() {
            assert(p[i] == w1[i]);
        } else if i < w1.len() + a.len() {
            assert(p[i] == a[i - w1.len()]);
        } else {
            assert(p[i] == w2[i - w1.len() - a.len()]);
        }
    }
    let j = choose|j: int| 0 <= j < a.len() && !white_space(a[j]);
    assert(p[w1.len() + j] == a[j]);
}

/// The ASCII punctuation characters (as `char::is_ascii_punctuation`).
pub open spec fn ascii_punctuation(c: char) -> bool {
    ||| ('!' <= c && c <= '/')
    ||| (':' <= c && c <= '@')
    ||| ('[' <= c && c <= '`')
    ||| ('{' <= c && c <= '~')
}

/// Parsing refuses empty text, text of white space only, and text holding a
/// character that is neither alphabetic nor white space; in particular any
/// ASCII digit or ASCII punctuation character.
pub proof fn lemma_parse_rejects(s: Seq<char>)
    ensures
        s.len() == 0 ==> !parses(s),
        (forall|i: int| 0 <= i < s.len() ==> white_space(#[trigger] s[i])) ==> !parses(s),
        (exists|i: int| 0 <= i < s.len() && !alphabetic(#[trigger] s[i]) && !white_space(s[i]))
            ==> !parses(s),
        (exists|i: int| 0 <= i < s.len() && '0' <= #[trigger] s[i] && s[i] <= '9') ==> !parses(s),
        (exists|i: int| 0 <= i < s.len() && ascii_punctuation(#[trigger] s[i])) ==> !parses(s),
{
    if exists|i: int| 0 <= i < s.len() && '0' <= #[trigger] s[i] && s[i] <= '9' {
        let i = choose|i: int| 0 <= i < s.len() && '0' <= #[trigger] s[i] && s[i] <= '9';
        assert(!alphabetic(s[i]) && !white_space(s[i]));
    }
    if exists|i: int| 0 <= i < s.len() && ascii_punctuation(#[trigger] s[i]) {
        let i = choose|i: int| 0 <= i < s.len() && ascii_punctuation(#[trigger] s[i]);
        assert(!alphabetic(s[i]) && !white_space(s[i]));
    }
}

/// After registering a name, registering it again with white space around it,
/// or as any accepted text with the same stored form (a case variant), finds
/// the name present, so `add` fails with `Duplicate`; the registry holds that
/// name once.
pub proof fn lemma_register_case_variant(
    v: Seq<(Seq<char>, CategoryInfo)>,
    v1: Seq<(Seq<char>, CategoryInfo)>,
    a: Seq<char>,
    b: Seq<char>,
    w1: Seq<char>,
    w2: Seq<char>,
)
    requires
        sorted_keys(v),
        sorted_keys(v1),
        parses(a),
        !has_key(v, stored_form(a)),
        exists|p: int| 0 <= p <= v.len() && v1 == v.insert(p, (stored_form(a), default_info())),
        all_white(w1),
        all_white(w2),
    ensures
        parses(w1 + a + w2) && has_key(v1, stored_form(w1 + a + w2)),
        parses(b) && lower_of(trimmed(b)) == lower_of(trimmed(a)) ==> has_key(v1, stored_form(b)),
        forall|i: int, j: int|
            0 <= i < v1.len() && 0 <= j < v1.len() && v1[i].0 == stored_form(a) && v1[j].0
                == stored_form(a) ==> i == j,
{
    let p = choose|p: int| 0 <= p <= v.len() && v1 == v.insert(p, (stored_form(a), default_info()));
    assert(v1[p].0 == stored_form(a));
    lemma_padded_parses(a, w1, w2);
    assert forall|i: int, j: int|
        0 <= i < v1.len() && 0 <= j < v1.len() && v1[i].0 == stored_form(a) && v1[j].0 == stored_form(a)
            implies i == j by {
        lemma_name_lt_irreflexive(stored_form(a));
        if i < j {
            assert(crate::category::name_lt(v1[i].0, v1[j].0));
        } else if j < i {
            assert(crate::category::name_lt(v1[j].0, v1[i].0));
        }
    }
}

/// Two runs of buckets with the same ends are the same sequence.
proof fn lemma_run_unique(d1: Seq<Date>, d2: Seq<Date>, start: Date, end: Date, g: GroupBy)
    requires
        is_run(d1, start, end, g),
        is_run(d2, start, end, g),
    ensures
        d1 == d2,
{
    lemma_run(d1, start, end, g);
    lemma_run(d2, start, end, g);
    let m = if d1.len() < d2.len() { d1.len() } else { d2.len() };
    assert forall|i: int| 0 <= i < m implies d1[i] == d2[i] by {
        lemma_run_prefix(d1, d2, start, end, g, i);
    }
    if d1.len() < d2.len() {
        assert(d2[d1.len() - 1] == d1[d1.len() - 1]);
        assert(d2[d1.len() - 1].key() < d2[d2.len() - 1].key());
    } else if d2.len() < d1.len() {
        assert(d1[d2.len() - 1] == d2[d2.len() - 1]);
        assert(d1[d2.len() - 1].key() < d1[d1.len() - 1].key());
    }
    assert(d1 =~= d2);
}

proof fn lemma_run_prefix(d1: Seq<Date>, d2: Seq<Date>, start: Date, end: Date, g: GroupBy, i: int)
    requires
        is_run(d1, start, end, g),
        is_run(d2, start, end, g),
        0 <= i < d1.len(),
        i < d2.len(),
    ensures
        d1[i] == d2[i],
    decreases i,
{
    if i > 0 {
        lemma_run_prefix(d1, d2, start, end, g, i - 1);
        assert(d1[i] == d1[i - 1].next_bucket(g));
        assert(d2[i] == d2[i - 1].next_bucket(g));
    }
}

/// Every series of `cost_map` runs over the same buckets: exactly the aligned
/// dates from the bucket of the globally earliest entry date to that of the
/// globally latest one, inclusive.
pub proof fn lemma_cost_map_buckets(s: Seq<EntryModel>, g: GroupBy, d1: Seq<Date>, d2: Seq<Date>)
    requires
        s.len() > 0,
        forall|i: int| 0 <= i < s.len() ==> (#[trigger] s[i]).date.wf(),
        is_run(d1, earliest(s).bucket(g), latest(s).bucket(g), g),
        is_run(d2, earliest(s).bucket(g), latest(s).bucket(g), g),
    ensures
        d1 == d2,
        forall|i: int| 0 <= i < s.len() ==> earliest(s).key() <= #[trigger] s[i].date.key() <= latest(
            s,
        ).key(),
        forall|x: Date|
            x.wf() && x.is_aligned(g) ==> (d1.contains(x) <==> earliest(s).bucket(g).key() <= x.key()
                <= latest(s).bucket(g).key()),
{
    lemma_run_unique(d1, d2, earliest(s).bucket(g), latest(s).bucket(g), g);
    lemma_run(d1, earliest(s).bucket(g), latest(s).bucket(g), g);
    lemma_extremes(s);
    assert forall|x: Date|
        x.wf() && x.is_aligned(g) && d1.contains(x) implies earliest(s).bucket(g).key() <= x.key()
            <= latest(s).bucket(g).key() by {
        let t = choose|t: int| 0 <= t < d1.len() && d1[t] == x;
        if t > 0 {
            assert(d1[0].key() < d1[t].key());
        }
        if t < d1.len() - 1 {
            assert(d1[t].key() < d1[d1.len() - 1].key());
        }
    }
}

/// Sum of one category's totals over a sequence of buckets.
pub open spec fn sum_totals(s: Seq<EntryModel>, c: Seq<char>, g: GroupBy, d: Seq<Date>) -> int
    decreases d.len(),
{
    if d.len() == 0 {
        0
    } else {
        sum_totals(s, c, g, d.drop_last()) + bucket_total(s, c, g, d.last())
    }
}

proof fn lemma_sum_empty(c: Seq<char>, g: GroupBy, d: Seq<Date>)
    ensures
        sum_totals(Seq::empty(), c, g, d) == 0,
    decreases d.len(),
{
    if d.len() > 0 {
        lemma_sum_empty(c, g, d.drop_last());
    }
}

/// Adding one entry adds its cost to the sum once, when its bucket is listed.
proof fn lemma_sum_push(s: Seq<EntryModel>, e: EntryModel, c: Seq<char>, g: GroupBy, d: Seq<Date>)
    requires
        increasing(d),
    ensures
        sum_totals(s.push(e), c, g, d) == sum_totals(s, c, g, d) + if e.category == c && d.contains(
            e.date.bucket(g),
        ) {
            e.cost as int
        } else {
            0
        },
    decreases d.len(),
{
    if d.len() > 0 {
        let d1 = d.drop_last();
        assert(increasing(d1)) by {
            assert forall|i: int, j: int| 0 <= i < j < d1.len() implies d1[i].key() < d1[j].key() by {
                assert(d[i].key() < d[j].key());
            }
        }
        lemma_sum_push(s, e, c, g, d1);
        assert(s.push(e).drop_last() =~= s);
        let b = e.date.bucket(g);
        if d1.contains(b) {
            let t = choose|t: int| 0 <= t < d1.len() && d1[t] == b;
            assert(d[t].key() < d[d.len() - 1].key());
            assert(d.contains(b));
        }
        if d.contains(b) && !d1.contains(b) {
            let t = choose|t: int| 0 <= t < d.len() && d[t] == b;
            if t < d.len() - 1 {
                assert(d1[t] == b);
            }
        }
    }
}

proof fn lemma_sum_conserves(s: Seq<EntryModel>, c: Seq<char>, g: GroupBy, d: Seq<Date>)
    requires
        increasing(d),
        forall|i: int| 0 <= i < s.len() ==> d.contains(#[trigger] s[i].date.bucket(g)),
    ensures
        sum_totals(s, c, g, d) == category_total(s, c),
    decreases s.len(),
{
    if s.len() == 0 {
        lemma_sum_empty(c, g, d);
        assert(s =~= Seq::<EntryModel>::empty());
    } else {
        let s1 = s.drop_last();
        assert forall|i: int| 0 <= i < s1.len() implies d.contains(#[trigger] s1[i].date.bucket(g)) by {
            assert(s1[i] == s[i]);
        }
        lemma_sum_conserves(s1, c, g, d);
        assert(s1.push(s.last()) =~= s);
        lemma_sum_push(s1, s.last(), c, g, d);
        assert(d.contains(s[s.len() - 1].date.bucket(g)));
    }
}

/// Summing a category's totals over all buckets of `cost_map` gives the total
/// cost of that category's entries: regrouping neither loses nor adds spend.
pub proof fn lemma_cost_map_conserves(s: Seq<EntryModel>, c: Seq<char>, g: GroupBy, d: Seq<Date>)
    requires
        s.len() > 0,
        forall|i: int| 0 <= i < s.len() ==> (#[trigger] s[i]).date.wf(),
        is_run(d, earliest(s).bucket(g), latest(s).bucket(g), g),
    ensures
        sum_totals(s, c, g, d) == category_total(s, c),
{
    let lo = earliest(s);
    let hi = latest(s);
    lemma_run(d, lo.bucket(g), hi.bucket(g), g);
    lemma_extremes(s);
    let a = choose|i: int| 0 <= i < s.len() && s[i].date == earliest(s);
    let b = choose|i: int| 0 <= i < s.len() && s[i].date == latest(s);
    assert(lo.wf() && hi.wf()) by {
        assert(s[a].date.wf());
        assert(s[b].date.wf());
    }
    assert forall|i: int| 0 <= i < s.len() implies d.contains(#[trigger] s[i].date.bucket(g)) by {
        lemma_bucket(lo, s[i].date, g);
        lemma_bucket(s[i].date, hi, g);
    }
    lemma_sum_conserves(s, c, g, d);
}

/// Sorting by date, then by cost, then removing display position 0 of an
/// ascending view removes an entry of smallest cost, and only that entry.
pub proof fn lemma_sort_then_remove_first(
    s0: Seq<EntryModel>,
    s1: Seq<EntryModel>,
    s2: Seq<EntryModel>,
    s3: Seq<EntryModel>,
)
    requires
        s0.len() > 0,
        s1.to_multiset() == s0.to_multiset(),
        sorted_by(s1, SortBy::Date),
        s2.to_multiset() == s1.to_multiset(),
        sorted_by(s2, SortBy::Cost),
        s3 == s2.remove(storage_index(s2.len() as int, 0, false)),
    ensures
        s0.to_multiset().count(s2[0]) > 0,
        forall|i: int| 0 <= i < s0.len() ==> s2[0].cost <= #[trigger] s0[i].cost,
        s3.to_multiset() == s0.to_multiset().remove(s2[0]),
{
    assert(s2.to_multiset().len() == s2.len());
    assert(s0.to_multiset().len() == s0.len());
    assert(s2.len() > 0);
    assert forall|i: int| 0 <= i < s0.len() implies s2[0].cost <= #[trigger] s0[i].cost by {
        assert(s0.to_multiset().count(s0[i]) > 0);
        assert(s2.contains(s0[i]));
        let j = choose|j: int| 0 <= j < s2.len() && s2[j] == s0[i];
        if j > 0 {
            assert(key_of(s2[0], SortBy::Cost) <= key_of(s2[j], SortBy::Cost));
        }
    }
    assert(s2.to_multiset().count(s2[0]) > 0);
}

} // verus!
