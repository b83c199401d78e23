//! Turning raw record text into the year mapping: the date column of a raw
//! record, the lenient date parse, and the per-year tally that feeds graph
//! construction.

use vstd::prelude::*;

use crate::graph::{distinct_input_years, input_has_year};

verus! {

/// The calendar year that the date text `s` names, when `s` parses under the
/// full-month-name date format (as in `September 25, 2021`), and nothing
/// otherwise.
pub uninterp spec fn date_year_of(s: Seq<char>) -> Option<i32>;

/// Relies on chrono's `NaiveDate::parse_from_str` with the `%B %d, %Y`
/// format and on `Datelike::year`: the parsed year is a function of the
/// characters alone, and chrono stores years well inside the `i32` range, so
/// a parsed year always leaves room for a predecessor year.
#[verifier::external_body]
fn parse_date_year(s: &str) -> (r: Option<i32>)
    ensures
        r == date_year_of(s@),
        r matches Some(y) ==> y > i32::MIN,
{
    match chrono::NaiveDate::parse_from_str(s, "%B %d, %Y") {
        Ok(d) => Some(chrono::Datelike::year(&d)),
        Err(_) => None,
    }
}

/// The year of one raw entry: nothing when the entry is absent, else
/// whatever its text parses to.
pub open spec fn entry_year(e: Option<String>) -> Option<i32> {
    match e {
        Some(s) => date_year_of(s@),
        None => None,
    }
}

/// How many of the first `k` parsed entries name the year `y`.
pub open spec fn occ_upto(ys: Seq<Option<i32>>, y: i32, k: int) -> nat
    decreases k,
{
    if k <= 0 {
        0
    } else {
        occ_upto(ys, y, k - 1) + if ys[k - 1] == Some(y) {
            1nat
        } else {
            0nat
        }
    }
}

/// How many parsed entries name the year `y`.
pub open spec fn occurrences(ys: Seq<Option<i32>>, y: i32) -> nat {
    occ_upto(ys, y, ys.len() as int)
}

/// How many of the first `k` parsed entries name no year at all.
pub open spec fn none_upto(ys: Seq<Option<i32>>, k: int) -> nat
    decreases k,
{
    if k <= 0 {
        0
    } else {
        none_upto(ys, k - 1) + if ys[k - 1] is None {
            1nat
        } else {
            0nat
        }
    }
}

/// How many parsed entries name no year at all.
pub open spec fn none_count(ys: Seq<Option<i32>>) -> nat {
    none_upto(ys, ys.len() as int)
}

/// A year is named at most once per entry.
proof fn lemma_occ_upto_le(ys: Seq<Option<i32>>, y: i32, k: int)
    requires
        0 <= k,
    ensures
        occ_upto(ys, y, k) <= k,
    decreases k,
{
    if k > 0 {
        lemma_occ_upto_le(ys, y, k - 1);
    }
}

/// At most one entry per record can be missing.
proof fn lemma_none_upto_le(ys: Seq<Option<i32>>, k: int)
    requires
        0 <= k,
    ensures
        none_upto(ys, k) <= k,
    decreases k,
{
    if k > 0 {
        lemma_none_upto_le(ys, k - 1);
    }
}

/// A year with a positive tally is named by some entry.
proof fn lemma_occurrence_witness(ys: Seq<Option<i32>>, y: i32, k: int)
    requires
        0 <= k <= ys.len(),
        occ_upto(ys, y, k) > 0,
    ensures
        exists|i: int| 0 <= i < ys.len() && ys[i] == Some(y),
    decreases k,
{
    if ys[k - 1] == Some(y) {
        assert(0 <= k - 1 < ys.len() && ys[k - 1] == Some(y));
    } else {
        lemma_occurrence_witness(ys, y, k - 1);
    }
}

/// Tally the parsed entries into a mapping from year to entry count, and
/// count the entries that name no year. Every named year appears exactly
/// once, with the exact number of entries naming it.
pub fn tally_years(ys: &Vec<Option<i32>>) -> (r: (Vec<(i32, usize)>, usize))
    ensures
        distinct_input_years(r.0@),
        forall|j: int|
            0 <= j < r.0@.len() ==> (#[trigger] r.0@[j]).1 as nat == occurrences(
                ys@,
                r.0@[j].0,
            ) && r.0@[j].1 >= 1,
        forall|y: i32| occurrences(ys@, y) > 0 <==> input_has_year(r.0@, y as int),
        r.1 as nat == none_count(ys@),
{
    let mut counts: Vec<(i32, usize)> = Vec::new();
    let mut missing: usize = 0;
    let mut i: usize = 0;
    while i < ys.len()
        invariant
            i <= ys@.len(),
            missing as nat == none_upto(ys@, i as int),
            distinct_input_years(counts@),
            forall|j: int|
                0 <= j < counts@.len() ==> (#[trigger] counts@[j]).1 as nat == occ_upto(
                    ys@,
                    counts@[j].0,
                    i as int,
                ) && counts@[j].1 >= 1,
            forall|y: i32|
                occ_upto(ys@, y, i as int) > 0 <==> input_has_year(counts@, y as int),
        decreases ys@.len() - i,
    {
        proof {
            lemma_none_upto_le(ys@, i as int);
        }
        match &ys[i] {
            None => {
                missing = missing + 1;
            }
            Some(y) => {
                let yv: i32 = *y;
                let mut j: usize = 0;
                let mut found: bool = false;
                while j < counts.len() && !found
                    invariant
                        j <= counts@.len(),
                        !found ==> forall|l: int|
                            0 <= l < j ==> (#[trigger] counts@[l]).0 != yv,
                        found ==> j < counts@.len() && counts@[j as int].0 == yv,
                    decreases counts@.len() - j + if found {
                        0int
                    } else {
                        1int
                    },
                {
                    if counts[j].0 == yv {
                        found = true;
                    } else {
                        j = j + 1;
                    }
                }
                let ghost cpre = counts@;
                if found {
                    proof {
                        lemma_occ_upto_le(ys@, yv, i as int);
                    }
                    let pair = counts[j];
                    counts[j] = (pair.0, pair.1 + 1);
                    proof {
                        assert forall|j2: int|
                            0 <= j2 < counts@.len() implies (#[trigger] counts@[j2]).1 as nat
                            == occ_upto(ys@, counts@[j2].0, i as int + 1) && counts@[j2].1
                            >= 1 by {
                            if j2 != j as int {
                                assert(counts@[j2] == cpre[j2]);
                                assert(counts@[j2].0 != yv);
                            }
                        }
                        assert forall|y2: i32|
                            occ_upto(ys@, y2, i as int + 1) > 0 <==> input_has_year(
                                counts@,
                                y2 as int,
                            ) by {
                            assert(occ_upto(ys@, y2, i as int + 1) == occ_upto(ys@, y2, i as int)
                                + if ys@[i as int] == Some(y2) {
                                1nat
                            } else {
                                0nat
                            });
                            if input_has_year(cpre, y2 as int) {
                                let l: int = choose|l: int|
                                    0 <= l < cpre.len() && (#[trigger] cpre[l]).0 as int
                                        == y2 as int;
                                assert((counts@[l]).0 as int == y2 as int);
                            }
                            if input_has_year(counts@, y2 as int) {
                                let l: int = choose|l: int|
                                    0 <= l < counts@.len() && (#[trigger] counts@[l]).0 as int
                                        == y2 as int;
                                assert((cpre[l]).0 as int == y2 as int);
                            }
                            if ys@[i as int] == Some(y2) {
                                assert(counts@[j as int].0 == y2);
                            }
                        }
                    }
                } else {
                    proof {
                        assert(occ_upto(ys@, yv, i as int) == 0) by {
                            if occ_upto(ys@, yv, i as int) > 0 {
                                assert(input_has_year(cpre, yv as int));
                                let l: int = choose|l: int|
                                    0 <= l < cpre.len() && (#[trigger] cpre[l]).0 as int
                                        == yv as int;
                            }
                        }
                    }
                    counts.push((yv, 1));
                    proof {
                        assert forall|j2: int|
                            0 <= j2 < counts@.len() implies (#[trigger] counts@[j2]).1 as nat
                            == occ_upto(ys@, counts@[j2].0, i as int + 1) && counts@[j2].1
                            >= 1 by {
                            if j2 < cpre.len() {
                                assert(counts@[j2] == cpre[j2]);
                                assert(counts@[j2].0 != yv);
                            } else {
                                assert(counts@[j2] == (yv, 1usize));
                            }
                        }
                        assert forall|y2: i32|
                            occ_upto(ys@, y2, i as int + 1) > 0 <==> input_has_year(
                                counts@,
                                y2 as int,
                            ) by {
                            assert(occ_upto(ys@, y2, i as int + 1) == occ_upto(ys@, y2, i as int)
                                + if ys@[i as int] == Some(y2) {
                                1nat
                            } else {
                                0nat
                            });
                            if input_has_year(cpre, y2 as int) {
                                let l: int = choose|l: int|
                                    0 <= l < cpre.len() && (#[trigger] cpre[l]).0 as int
                                        == y2 as int;
                                assert((counts@[l]).0 as int == y2 as int);
                            }
                            if y2 == yv {
                                assert(counts@[cpre.len() as int].0 == yv);
                            }
                            if input_has_year(counts@, y2 as int) && y2 != yv {
                                let l: int = choose|l: int|
                                    0 <= l < counts@.len() && (#[trigger] counts@[l]).0 as int
                                        == y2 as int;
                                assert(l < cpre.len());
                                assert((cpre[l]).0 as int == y2 as int);
                            }
                        }
                        assert(distinct_input_years(counts@)) by {
                            assert forall|a: int, b: int|
                                0 <= a < b < counts@.len() implies counts@[a].0
                                != counts@[b].0 by {
                                if b == cpre.len() as int {
                                    assert(counts@[a].0 != yv);
                                }
                            }
                        }
                    }
                }
            }
        }
        i = i + 1;
    }
    (counts, missing)
}

/// Parse each raw date entry and tally the named years: the year mapping for
/// graph construction, and the number of entries whose date is absent or
/// unreadable. Each mapped year leaves room for a predecessor year.
pub fn count_year_additions(dates: &Vec<Option<String>>) -> (r: (Vec<(i32, usize)>, usize))
    ensures
        distinct_input_years(r.0@),
        forall|j: int|
            0 <= j < r.0@.len() ==> (#[trigger] r.0@[j]).1 as nat == occurrences(
                dates@.map_values(|e: Option<String>| entry_year(e)),
                r.0@[j].0,
            ) && r.0@[j].1 >= 1 && r.0@[j].0 > i32::MIN,
        forall|y: i32|
            occurrences(dates@.map_values(|e: Option<String>| entry_year(e)), y) > 0
                <==> input_has_year(r.0@, y as int),
        r.1 as nat == none_count(dates@.map_values(|e: Option<String>| entry_year(e))),
{
    let mut parsed: Vec<Option<i32>> = Vec::new();
    let mut i: usize = 0;
    while i < dates.len()
        invariant
            i <= dates@.len(),
            parsed@.len() == i,
            forall|k: int| 0 <= k < i ==> parsed@[k] == entry_year(dates@[k]),
            forall|k: int|
                0 <= k < i ==> ((#[trigger] parsed@[k]) matches Some(y) ==> y > i32::MIN),
        decreases dates@.len() - i,
    {
        match &dates[i] {
            None => {
                parsed.push(None);
            }
            Some(s) => {
                parsed.push(parse_date_year(s.as_str()));
            }
        }
        i = i + 1;
    }
    proof {
        assert(parsed@ =~= dates@.map_values(|e: Option<String>| entry_year(e)));
    }
    let r = tally_years(&parsed);
    proof {
        assert forall|j: int| 0 <= j < r.0@.len() implies (#[trigger] r.0@[j]).0 > i32::MIN by {
            lemma_occurrence_witness(parsed@, r.0@[j].0, parsed@.len() as int);
            let w: int = choose|w: int|
                0 <= w < parsed@.len() && parsed@[w] == Some(r.0@[j].0);
        }
    }
    r
}

/// The date column of one raw record: its seventh field, or empty text when
/// the record is shorter than that.
pub fn date_column(fields: &Vec<String>) -> (r: String)
    ensures
        fields@.len() > 6 ==> r@ == fields@[6]@,
        fields@.len() <= 6 ==> r@ == Seq::<char>::empty(),
{
    if fields.len() > 6 {
        fields[6].clone()
    } else {
        String::new()
    }
}

} // verus!
