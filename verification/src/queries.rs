//! Read-only queries over a loaded collection: titles by year, the
//! best-rated record of each year, and records by language. None of
//! them mutates the collection; each answers from the records alone.

use vstd::prelude::*;

use crate::bytes::{bytes_eq, copy_bytes, views_of};
use crate::record::{recs_view, Record, RecordModel};

verus! {

/// The records of year `y`, in collection order.
pub open spec fn of_year(ms: Seq<RecordModel>, y: int) -> Seq<RecordModel> {
    ms.filter(|m: RecordModel| m.year == y)
}

/// The titles of the records of year `y`, in collection order.
pub open spec fn titles_in_year(ms: Seq<RecordModel>, y: int) -> Seq<Seq<u8>> {
    of_year(ms, y).map_values(|m: RecordModel| m.title)
}

/// How one appended record extends the records of a year.
proof fn lemma_of_year_push(ms: Seq<RecordModel>, m: RecordModel, y: int)
    ensures
        of_year(ms.push(m), y) == if m.year == y {
            of_year(ms, y).push(m)
        } else {
            of_year(ms, y)
        },
{
    reveal(Seq::<_>::filter);
    assert(ms.push(m).drop_last() =~= ms);
    assert(ms.push(m).last() == m);
}

/// A year without records has an empty record list.
proof fn lemma_of_year_empty(ms: Seq<RecordModel>, y: int)
    requires
        of_year(ms, y).len() == 0,
    ensures
        forall|k: int| 0 <= k < ms.len() ==> (#[trigger] ms[k]).year != y,
    decreases ms.len(),
{
    reveal(Seq::<_>::filter);
    if ms.len() > 0 {
        let pre = ms.drop_last();
        lemma_of_year_empty(pre, y);
        assert forall|k: int| 0 <= k < ms.len() implies (#[trigger] ms[k]).year != y by {
            if k < ms.len() - 1 {
                assert(ms[k] == pre[k]);
            } else {
                assert(ms[k] == ms.last());
            }
        }
    }
}

/// How one appended record extends the year query's answer.
proof fn lemma_titles_in_year_push(ms: Seq<RecordModel>, m: RecordModel, y: int)
    ensures
        titles_in_year(ms.push(m), y) == if m.year == y {
            titles_in_year(ms, y).push(m.title)
        } else {
            titles_in_year(ms, y)
        },
{
    lemma_of_year_push(ms, m, y);
    if m.year == y {
        assert(of_year(ms, y).push(m).map_values(|mm: RecordModel| mm.title) =~= of_year(
            ms,
            y,
        ).map_values(|mm: RecordModel| mm.title).push(m.title));
    }
}

/// An empty year answer means no record has that year.
proof fn lemma_titles_in_year_empty(ms: Seq<RecordModel>, y: int)
    requires
        titles_in_year(ms, y).len() == 0,
    ensures
        forall|k: int| 0 <= k < ms.len() ==> (#[trigger] ms[k]).year != y,
{
    lemma_of_year_empty(ms, y);
}

/// The ordered titles of the records of the given year, or `None`
/// where no record has that year: an empty answer is told apart from
/// a present one.
pub fn filter_by_year(records: &Vec<Record>, year: i32) -> (r: Option<Vec<Vec<u8>>>)
    ensures
        match r {
            Some(ts) => views_of(ts@) == titles_in_year(recs_view(records@), year as int)
                && ts@.len() > 0,
            None => titles_in_year(recs_view(records@), year as int).len() == 0 && forall|k: int|
                0 <= k < recs_view(records@).len() ==> (#[trigger] recs_view(records@)[k]).year
                    != year as int,
        },
{
    let ghost ms = recs_view(records@);
    let mut out: Vec<Vec<u8>> = Vec::new();
    let n = records.len();
    let mut i: usize = 0;
    proof {
        assert(ms.subrange(0, 0) =~= Seq::<RecordModel>::empty());
        assert(views_of(out@) =~= titles_in_year(ms.subrange(0, 0), year as int));
    }
    while i < n
        invariant
            0 <= i <= n,
            n == records@.len(),
            ms == recs_view(records@),
            views_of(out@) == titles_in_year(ms.subrange(0, i as int), year as int),
        decreases n - i,
    {
        let ghost pre = ms.subrange(0, i as int);
        let ghost cur = ms.subrange(0, i + 1);
        proof {
            assert(cur =~= pre.push(ms[i as int]));
            lemma_titles_in_year_push(pre, ms[i as int], year as int);
            assert(ms[i as int] == records@[i as int]@);
        }
        if records[i].year == year {
            let t = copy_bytes(&records[i].title);
            out.push(t);
            proof {
                assert(views_of(out@) =~= titles_in_year(cur, year as int));
            }
        } else {
            proof {
                assert(views_of(out@) =~= titles_in_year(cur, year as int));
            }
        }
        i = i + 1;
    }
    proof {
        assert(ms.subrange(0, n as int) =~= ms);
    }
    if out.len() == 0 {
        proof {
            lemma_titles_in_year_empty(ms, year as int);
        }
        return None;
    }
    Some(out)
}

/// The best record of a non-empty group: the one with the highest
/// rating, and among equally rated ones the first seen — a later
/// record displaces the current best only with a strictly higher
/// rating.
pub open spec fn best_of(ms: Seq<RecordModel>) -> RecordModel
    recommends
        ms.len() > 0,
    decreases ms.len(),
{
    if ms.len() <= 1 {
        ms[0]
    } else {
        let b = best_of(ms.drop_last());
        if ms.last().rating_tenths > b.rating_tenths {
            ms.last()
        } else {
            b
        }
    }
}

/// The best record of year `y`; meaningful where the year is present.
pub open spec fn best_in(ms: Seq<RecordModel>, y: int) -> RecordModel {
    best_of(of_year(ms, y))
}

/// Some record has year `y`.
pub open spec fn has_year(ms: Seq<RecordModel>, y: int) -> bool {
    exists|i: int| 0 <= i < ms.len() && (#[trigger] ms[i]).year == y
}

/// One line of the best-per-year report.
#[derive(Debug, Clone, PartialEq)]
pub struct YearBest {
    pub year: i32,
    pub rating_tenths: u32,
    pub title: Vec<u8>,
}

/// An entry carries the rating and title of its year's best record.
pub open spec fn entry_matches(e: YearBest, ms: Seq<RecordModel>) -> bool {
    e.rating_tenths as int == best_in(ms, e.year as int).rating_tenths && e.title@ == best_in(
        ms,
        e.year as int,
    ).title
}

/// What the best-per-year report satisfies: years strictly ascending,
/// exactly one entry for each year present in the records, and each
/// entry carrying its year's best rating and title.
pub open spec fn best_report_ok(out: Seq<YearBest>, ms: Seq<RecordModel>) -> bool {
    &&& forall|i: int, j: int|
        0 <= i < j < out.len() ==> (#[trigger] out[i]).year < (#[trigger] out[j]).year
    &&& forall|i: int| 0 <= i < out.len() ==> has_year(ms, (#[trigger] out[i]).year as int)
    &&& forall|y: int|
        #[trigger] has_year(ms, y) ==> exists|i: int|
            0 <= i < out.len() && ((#[trigger] out[i]).year as int) == y
    &&& forall|i: int| 0 <= i < out.len() ==> entry_matches(#[trigger] out[i], ms)
}

/// How one appended record changes which years are present.
proof fn lemma_has_year_push(ms: Seq<RecordModel>, m: RecordModel, y: int)
    ensures
        has_year(ms.push(m), y) == (has_year(ms, y) || m.year == y),
{
    let p = ms.push(m);
    if has_year(ms, y) {
        let i = choose|i: int| 0 <= i < ms.len() && (#[trigger] ms[i]).year == y;
        assert(p[i].year == y);
    }
    if m.year == y {
        assert(p[ms.len() as int].year == y);
    }
    if has_year(p, y) {
        let i = choose|i: int| 0 <= i < p.len() && (#[trigger] p[i]).year == y;
        if i < ms.len() {
            assert(ms[i].year == y);
        } else {
            assert(p[i] == m);
        }
    }
}

/// A year that is absent has no records.
proof fn lemma_of_year_absent(ms: Seq<RecordModel>, y: int)
    requires
        !has_year(ms, y),
    ensures
        of_year(ms, y) == Seq::<RecordModel>::empty(),
    decreases ms.len(),
{
    reveal(Seq::<_>::filter);
    if ms.len() > 0 {
        let pre = ms.drop_last();
        assert(!has_year(pre, y)) by {
            if has_year(pre, y) {
                let i = choose|i: int| 0 <= i < pre.len() && (#[trigger] pre[i]).year == y;
                assert(ms[i].year == y);
            }
        }
        assert(ms[ms.len() - 1] == ms.last());
        lemma_of_year_absent(pre, y);
    } else {
        assert(of_year(ms, y) =~= Seq::<RecordModel>::empty());
    }
}

/// A year that is present has at least one record.
proof fn lemma_of_year_present(ms: Seq<RecordModel>, y: int)
    requires
        has_year(ms, y),
    ensures
        of_year(ms, y).len() > 0,
    decreases ms.len(),
{
    reveal(Seq::<_>::filter);
    if ms.len() > 0 {
        let pre = ms.drop_last();
        if ms.last().year == y {
        } else {
            assert(has_year(pre, y)) by {
                let i = choose|i: int| 0 <= i < ms.len() && (#[trigger] ms[i]).year == y;
                assert(pre[i] == ms[i]);
            }
            lemma_of_year_present(pre, y);
        }
    }
}

/// How one appended record changes the best of a non-empty group.
proof fn lemma_best_of_push(f: Seq<RecordModel>, m: RecordModel)
    requires
        f.len() >= 1,
    ensures
        best_of(f.push(m)) == if m.rating_tenths > best_of(f).rating_tenths {
            m
        } else {
            best_of(f)
        },
{
    assert(f.push(m).drop_last() =~= f);
    assert(f.push(m).last() == m);
}

/// The first index whose entry's year is not below `y`.
fn find_year_pos(out: &Vec<YearBest>, y: i32) -> (pos: usize)
    ensures
        0 <= pos <= out@.len(),
        forall|k: int| 0 <= k < pos ==> (#[trigger] out@[k]).year < y,
        pos < out@.len() ==> out@[pos as int].year >= y,
{
    let n = out.len();
    let mut pos: usize = 0;
    while pos < n && out[pos].year < y
        invariant
            0 <= pos <= n,
            n == out@.len(),
            forall|k: int| 0 <= k < pos ==> (#[trigger] out@[k]).year < y,
        decreases n - pos,
    {
        pos = pos + 1;
    }
    pos
}

/// The best-rated record of each year present in the records: one
/// entry per distinct year, ordered ascending by year, each carrying
/// the year's highest rating and the title of the first record that
/// attains it.
pub fn best_per_year(records: &Vec<Record>) -> (r: Vec<YearBest>)
    ensures
        best_report_ok(r@, recs_view(records@)),
{
    let ghost ms = recs_view(records@);
    let mut out: Vec<YearBest> = Vec::new();
    let n = records.len();
    let mut i: usize = 0;
    proof {
        assert(ms.subrange(0, 0) =~= Seq::<RecordModel>::empty());
        assert(best_report_ok(out@, ms.subrange(0, 0)));
    }
    while i < n
        invariant
            0 <= i <= n,
            n == records@.len(),
            ms == recs_view(records@),
            best_report_ok(out@, ms.subrange(0, i as int)),
        decreases n - i,
    {
        let ghost pre = ms.subrange(0, i as int);
        let ghost cur = ms.subrange(0, i + 1);
        let ghost m = ms[i as int];
        proof {
            assert(cur =~= pre.push(m));
            assert(m == records@[i as int]@);
        }
        let rec = &records[i];
        let y = rec.year;
        let pos = find_year_pos(&out, y);
        proof {
            assert(m.year == y as int);
        }
        if pos < out.len() && out[pos].year == y {
            // the year is already reported: keep the better rating,
            // the earlier record on a tie
            let ghost old_out = out@;
            proof {
                lemma_of_year_present(pre, y as int);
                lemma_of_year_push(pre, m, y as int);
                lemma_best_of_push(of_year(pre, y as int), m);
            }
            if rec.rating_tenths > out[pos].rating_tenths {
                let entry = YearBest {
                    year: y,
                    rating_tenths: rec.rating_tenths,
                    title: copy_bytes(&rec.title),
                };
                out.set(pos, entry);
            }
            proof {
                assert forall|k: int| 0 <= k < out@.len() implies (#[trigger] out@[k]).year
                    == old_out[k].year by {}
                assert forall|a: int, b: int| 0 <= a < b < out@.len() implies (
                #[trigger] out@[a]).year < (#[trigger] out@[b]).year by {
                    assert(old_out[a].year < old_out[b].year);
                }
                assert forall|k: int| 0 <= k < out@.len() implies has_year(
                    cur,
                    (#[trigger] out@[k]).year as int,
                ) by {
                    lemma_has_year_push(pre, m, out@[k].year as int);
                }
                assert forall|yy: int| #[trigger] has_year(cur, yy) implies exists|k: int|
                    0 <= k < out@.len() && ((#[trigger] out@[k]).year as int) == yy by {
                    lemma_has_year_push(pre, m, yy);
                    if yy == m.year {
                        assert(out@[pos as int].year as int == yy);
                    } else {
                        let k = choose|k: int|
                            0 <= k < old_out.len() && ((#[trigger] old_out[k]).year as int) == yy;
                        assert(out@[k].year as int == yy);
                    }
                }
                assert forall|k: int| 0 <= k < out@.len() implies entry_matches(
                    #[trigger] out@[k],
                    cur,
                ) by {
                    if k == pos {
                        assert(entry_matches(out@[k], cur));
                    } else {
                        assert(out@[k] == old_out[k]);
                        assert(out@[k].year as int != m.year) by {
                            if k < pos {
                                assert(old_out[k].year < old_out[pos as int].year);
                            } else {
                                assert(old_out[pos as int].year < old_out[k].year);
                            }
                        }
                        lemma_of_year_push(pre, m, out@[k].year as int);
                        assert(entry_matches(out@[k], cur));
                    }
                }
                assert(best_report_ok(out@, cur));
            }
        } else {
            // a year not seen before: a fresh entry keeps the years
            // ascending
            let ghost old_out = out@;
            let entry = YearBest {
                year: y,
                rating_tenths: rec.rating_tenths,
                title: copy_bytes(&rec.title),
            };
            out.insert(pos, entry);
            proof {
                assert(!has_year(pre, y as int)) by {
                    if has_year(pre, y as int) {
                        let k = choose|k: int|
                            0 <= k < old_out.len() && ((#[trigger] old_out[k]).year as int)
                                == y as int;
                        if k < pos {
                            assert(old_out[k].year < y);
                        } else if k > pos {
                            assert(old_out[pos as int].year < old_out[k].year);
                        }
                    }
                }
                lemma_of_year_absent(pre, y as int);
                lemma_of_year_push(pre, m, y as int);
                assert(of_year(cur, y as int) == Seq::<RecordModel>::empty().push(m));
                assert(best_of(of_year(cur, y as int)) == m) by {
                    assert(Seq::<RecordModel>::empty().push(m).len() == 1);
                    assert(Seq::<RecordModel>::empty().push(m)[0] == m);
                }
                old_out.insert_ensures(pos as int, entry);
                assert forall|a: int, b: int| 0 <= a < b < out@.len() implies (
                #[trigger] out@[a]).year < (#[trigger] out@[b]).year by {
                    if b < pos {
                    } else if a < pos && b == pos {
                        assert(out@[a] == old_out[a]);
                    } else if a < pos && b > pos {
                        assert(out@[b] == old_out[b - 1]);
                        if b - 1 == pos {
                            assert(old_out[pos as int].year > y);
                        } else {
                            assert(old_out[pos as int].year <= old_out[b - 1].year);
                        }
                    } else if a == pos {
                        assert(out@[b] == old_out[b - 1]);
                        if b - 1 == pos {
                            assert(old_out[pos as int].year > y);
                        } else {
                            assert(old_out[pos as int].year < old_out[b - 1].year);
                        }
                    } else {
                        assert(out@[a] == old_out[a - 1]);
                        assert(out@[b] == old_out[b - 1]);
                    }
                }
                assert forall|k: int| 0 <= k < out@.len() implies has_year(
                    cur,
                    (#[trigger] out@[k]).year as int,
                ) by {
                    lemma_has_year_push(pre, m, out@[k].year as int);
                    if k < pos {
                        assert(out@[k] == old_out[k]);
                    } else if k > pos {
                        assert(out@[k] == old_out[k - 1]);
                    }
                }
                assert forall|yy: int| #[trigger] has_year(cur, yy) implies exists|k: int|
                    0 <= k < out@.len() && ((#[trigger] out@[k]).year as int) == yy by {
                    lemma_has_year_push(pre, m, yy);
                    if yy == m.year {
                        assert(out@[pos as int].year as int == yy);
                    } else {
                        let k = choose|k: int|
                            0 <= k < old_out.len() && ((#[trigger] old_out[k]).year as int) == yy;
                        if k < pos {
                            assert(out@[k].year as int == yy);
                        } else {
                            assert(out@[k + 1] == old_out[k]);
                            assert(out@[k + 1].year as int == yy);
                        }
                    }
                }
                assert forall|k: int| 0 <= k < out@.len() implies entry_matches(
                    #[trigger] out@[k],
                    cur,
                ) by {
                    if k == pos {
                        assert(out@[k] == entry);
                        assert(entry_matches(entry, cur));
                    } else {
                        let e = if k < pos {
                            old_out[k]
                        } else {
                            old_out[k - 1]
                        };
                        assert(out@[k] == e);
                        assert(e.year as int != m.year) by {
                            if k < pos {
                                assert(old_out[k].year < y);
                            } else {
                                if k - 1 == pos {
                                    assert(old_out[pos as int].year > y);
                                } else {
                                    assert(old_out[pos as int].year < old_out[k - 1].year);
                                    assert(old_out[pos as int].year > y);
                                }
                            }
                        }
                        lemma_of_year_push(pre, m, e.year as int);
                        assert(entry_matches(e, cur));
                    }
                }
                assert(best_report_ok(out@, cur));
            }
        }
        i = i + 1;
    }
    proof {
        assert(ms.subrange(0, n as int) =~= ms);
    }
    out
}

/// A record matches a language query exactly: some stored token is the
/// same byte sequence as the query. Nothing is folded or normalized,
/// so matching is case-sensitive.
pub open spec fn matches_language(m: RecordModel, q: Seq<u8>) -> bool {
    m.languages.contains(q)
}

/// Language matching is exact, hence case-sensitive: a record answers
/// a query precisely when some stored token is the query, byte for
/// byte. No folding or normalization takes place, so a query that
/// differs from every stored token even only in letter case matches
/// nothing.
pub proof fn lemma_language_match_exact(m: RecordModel, q: Seq<u8>)
    ensures
        matches_language(m, q) <==> exists|i: int|
            0 <= i < m.languages.len() && #[trigger] m.languages[i] == q,
{
}

/// The records whose language list contains the query, in collection
/// order.
pub open spec fn with_language(ms: Seq<RecordModel>, q: Seq<u8>) -> Seq<RecordModel> {
    ms.filter(|m: RecordModel| matches_language(m, q))
}

/// The (year, title) pairs of the records whose language list contains
/// the query, in collection order.
pub open spec fn pairs_in_language(ms: Seq<RecordModel>, q: Seq<u8>) -> Seq<(int, Seq<u8>)> {
    with_language(ms, q).map_values(|m: RecordModel| (m.year, m.title))
}

/// How one appended record extends the matching records.
proof fn lemma_with_language_push(ms: Seq<RecordModel>, m: RecordModel, q: Seq<u8>)
    ensures
        with_language(ms.push(m), q) == if matches_language(m, q) {
            with_language(ms, q).push(m)
        } else {
            with_language(ms, q)
        },
{
    reveal(Seq::<_>::filter);
    assert(ms.push(m).drop_last() =~= ms);
    assert(ms.push(m).last() == m);
}

/// How one appended record extends the language query's answer.
proof fn lemma_pairs_in_language_push(ms: Seq<RecordModel>, m: RecordModel, q: Seq<u8>)
    ensures
        pairs_in_language(ms.push(m), q) == if matches_language(m, q) {
            pairs_in_language(ms, q).push((m.year, m.title))
        } else {
            pairs_in_language(ms, q)
        },
{
    lemma_with_language_push(ms, m, q);
    if matches_language(m, q) {
        assert(with_language(ms, q).push(m).map_values(|mm: RecordModel| (mm.year, mm.title))
            =~= with_language(ms, q).map_values(|mm: RecordModel| (mm.year, mm.title)).push(
            (m.year, m.title),
        ));
    }
}

/// An empty language answer means no record matches the query.
proof fn lemma_pairs_in_language_empty(ms: Seq<RecordModel>, q: Seq<u8>)
    requires
        pairs_in_language(ms, q).len() == 0,
    ensures
        forall|k: int| 0 <= k < ms.len() ==> !matches_language(#[trigger] ms[k], q),
    decreases ms.len(),
{
    reveal(Seq::<_>::filter);
    if ms.len() > 0 {
        let pre = ms.drop_last();
        lemma_pairs_in_language_empty(pre, q);
        assert forall|k: int| 0 <= k < ms.len() implies !matches_language(#[trigger] ms[k], q) by {
            if k < ms.len() - 1 {
                assert(ms[k] == pre[k]);
            } else {
                assert(ms[k] == ms.last());
            }
        }
    }
}

/// One (year, title) answer of the language query.
#[derive(Debug, Clone, PartialEq)]
pub struct YearTitle {
    pub year: i32,
    pub title: Vec<u8>,
}

/// The models of a sequence of answers.
pub open spec fn pairs_view(ps: Seq<YearTitle>) -> Seq<(int, Seq<u8>)> {
    ps.map_values(|p: YearTitle| (p.year as int, p.title@))
}

/// Does the record hold exactly this language token?
fn has_language(rec: &Record, q: &Vec<u8>) -> (r: bool)
    ensures
        r == matches_language(rec@, q@),
{
    let n = rec.languages.len();
    let mut i: usize = 0;
    while i < n
        invariant
            0 <= i <= n,
            n == rec.languages@.len(),
            forall|k: int| 0 <= k < i ==> (#[trigger] rec.languages@[k])@ != q@,
        decreases n - i,
    {
        if bytes_eq(&rec.languages[i], q) {
            proof {
                assert(rec@.languages[i as int] == q@);
            }
            return true;
        }
        i = i + 1;
    }
    proof {
        assert forall|k: int| 0 <= k < rec@.languages.len() implies (#[trigger] rec@.languages[k])
            != q@ by {
            assert(rec@.languages[k] == rec.languages@[k]@);
        }
    }
    false
}

/// The ordered (year, title) pairs of the records whose languages
/// contain exactly the query token, or `None` where no record does.
pub fn filter_by_language(records: &Vec<Record>, language: &Vec<u8>) -> (r: Option<Vec<YearTitle>>)
    ensures
        match r {
            Some(ps) => pairs_view(ps@) == pairs_in_language(recs_view(records@), language@)
                && ps@.len() > 0,
            None => pairs_in_language(recs_view(records@), language@).len() == 0 && forall|k: int|
                0 <= k < recs_view(records@).len() ==> !matches_language(
                    #[trigger] recs_view(records@)[k],
                    language@,
                ),
        },
{
    let ghost ms = recs_view(records@);
    let ghost q = language@;
    let mut out: Vec<YearTitle> = Vec::new();
    let n = records.len();
    let mut i: usize = 0;
    proof {
        assert(ms.subrange(0, 0) =~= Seq::<RecordModel>::empty());
        assert(pairs_view(out@) =~= pairs_in_language(ms.subrange(0, 0), q));
    }
    while i < n
        invariant
            0 <= i <= n,
            n == records@.len(),
            ms == recs_view(records@),
            q == language@,
            pairs_view(out@) == pairs_in_language(ms.subrange(0, i as int), q),
        decreases n - i,
    {
        let ghost pre = ms.subrange(0, i as int);
        let ghost cur = ms.subrange(0, i + 1);
        proof {
            assert(cur =~= pre.push(ms[i as int]));
            lemma_pairs_in_language_push(pre, ms[i as int], q);
            assert(ms[i as int] == records@[i as int]@);
        }
        if has_language(&records[i], language) {
            let t = copy_bytes(&records[i].title);
            out.push(YearTitle { year: records[i].year, title: t });
            proof {
                assert(pairs_view(out@) =~= pairs_in_language(cur, q));
            }
        } else {
            proof {
                assert(pairs_view(out@) =~= pairs_in_language(cur, q));
            }
        }
        i = i + 1;
    }
    proof {
        assert(ms.subrange(0, n as int) =~= ms);
    }
    if out.len() == 0 {
        proof {
            lemma_pairs_in_language_empty(ms, q);
        }
        return None;
    }
    Some(out)
}

} // verus!
