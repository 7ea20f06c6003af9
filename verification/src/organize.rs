//! Preparing grouped output for the directory-organizing front end:
//! selecting a CSV file by size from a directory listing, grouping raw
//! row titles by their year field, and naming the output directory
//! with a random numeric suffix.

use vstd::prelude::*;

use rand::Rng;

use crate::bytes::{bytes_eq, copy_bytes, rows_view, views_of};
use crate::loader::field;
use crate::numbers::{dec_digits, u32_to_decimal};

verus! {

/// A directory entry as the front end reports it: a file name and a
/// size in bytes.
#[derive(Debug, Clone, PartialEq)]
pub struct FileEntry {
    pub name: Vec<u8>,
    pub size: u64,
}

/// The bytes of `movies_`.
pub open spec fn movies_prefix() -> Seq<u8> {
    seq![109u8, 111u8, 118u8, 105u8, 101u8, 115u8, 95u8]
}

/// The bytes of `.csv`.
pub open spec fn csv_suffix() -> Seq<u8> {
    seq![46u8, 99u8, 115u8, 118u8]
}

/// An entry is a candidate when its name starts with `movies_` and
/// ends with `.csv`.
pub open spec fn is_candidate(e: FileEntry) -> bool {
    &&& e.name@.len() >= 7
    &&& e.name@.subrange(0, 7) == movies_prefix()
    &&& e.name@.subrange(e.name@.len() - 4, e.name@.len() as int) == csv_suffix()
}

fn movies_prefix_vec() -> (r: Vec<u8>)
    ensures
        r@ == movies_prefix(),
{
    let mut v: Vec<u8> = Vec::new();
    v.push(109);
    v.push(111);
    v.push(118);
    v.push(105);
    v.push(101);
    v.push(115);
    v.push(95);
    proof {
        assert(v@ =~= movies_prefix());
    }
    v
}

fn csv_suffix_vec() -> (r: Vec<u8>)
    ensures
        r@ == csv_suffix(),
{
    let mut v: Vec<u8> = Vec::new();
    v.push(46);
    v.push(99);
    v.push(115);
    v.push(118);
    proof {
        assert(v@ =~= csv_suffix());
    }
    v
}

/// Does this entry's name match the `movies_*.csv` pattern?
fn entry_is_candidate(e: &FileEntry) -> (r: bool)
    ensures
        r == is_candidate(*e),
{
    let prefix = movies_prefix_vec();
    let suffix = csv_suffix_vec();
    crate::bytes::starts_with(&e.name, &prefix) && crate::bytes::ends_with(&e.name, &suffix)
}

/// The index of the largest candidate file; ties go to the earliest
/// entry. `None` where no entry matches the pattern.
pub fn select_largest(entries: &Vec<FileEntry>) -> (r: Option<usize>)
    ensures
        match r {
            Some(i) => 0 <= i < entries@.len() && is_candidate(entries@[i as int]) && (forall|
                j: int,
            |
                0 <= j < entries@.len() && is_candidate(#[trigger] entries@[j])
                    ==> entries@[j].size <= entries@[i as int].size) && (forall|j: int|
                0 <= j < i && is_candidate(#[trigger] entries@[j]) ==> entries@[j].size
                    < entries@[i as int].size),
            None => forall|j: int| 0 <= j < entries@.len() ==> !is_candidate(#[trigger] entries@[j]),
        },
{
    let n = entries.len();
    let mut have: bool = false;
    let mut best_idx: usize = 0;
    let mut best_size: u64 = 0;
    let mut j: usize = 0;
    while j < n
        invariant
            0 <= j <= n,
            n == entries@.len(),
            !have ==> forall|k: int| 0 <= k < j ==> !is_candidate(#[trigger] entries@[k]),
            have ==> 0 <= best_idx < j && is_candidate(entries@[best_idx as int]) && best_size
                == entries@[best_idx as int].size,
            have ==> forall|k: int|
                0 <= k < j && is_candidate(#[trigger] entries@[k]) ==> entries@[k].size
                    <= best_size,
            have ==> forall|k: int|
                0 <= k < best_idx && is_candidate(#[trigger] entries@[k]) ==> entries@[k].size
                    < best_size,
        decreases n - j,
    {
        if entry_is_candidate(&entries[j]) {
            if !have || entries[j].size > best_size {
                have = true;
                best_idx = j;
                best_size = entries[j].size;
            }
        }
        j = j + 1;
    }
    if have {
        Some(best_idx)
    } else {
        None
    }
}

/// The index of the smallest candidate file; ties go to the earliest
/// entry. `None` where no entry matches the pattern.
pub fn select_smallest(entries: &Vec<FileEntry>) -> (r: Option<usize>)
    ensures
        match r {
            Some(i) => 0 <= i < entries@.len() && is_candidate(entries@[i as int]) && (forall|
                j: int,
            |
                0 <= j < entries@.len() && is_candidate(#[trigger] entries@[j])
                    ==> entries@[j].size >= entries@[i as int].size) && (forall|j: int|
                0 <= j < i && is_candidate(#[trigger] entries@[j]) ==> entries@[j].size
                    > entries@[i as int].size),
            None => forall|j: int| 0 <= j < entries@.len() ==> !is_candidate(#[trigger] entries@[j]),
        },
{
    let n = entries.len();
    let mut have: bool = false;
    let mut best_idx: usize = 0;
    let mut best_size: u64 = 0;
    let mut j: usize = 0;
    while j < n
        invariant
            0 <= j <= n,
            n == entries@.len(),
            !have ==> forall|k: int| 0 <= k < j ==> !is_candidate(#[trigger] entries@[k]),
            have ==> 0 <= best_idx < j && is_candidate(entries@[best_idx as int]) && best_size
                == entries@[best_idx as int].size,
            have ==> forall|k: int|
                0 <= k < j && is_candidate(#[trigger] entries@[k]) ==> entries@[k].size
                    >= best_size,
            have ==> forall|k: int|
                0 <= k < best_idx && is_candidate(#[trigger] entries@[k]) ==> entries@[k].size
                    > best_size,
        decreases n - j,
    {
        if entry_is_candidate(&entries[j]) {
            if !have || entries[j].size < best_size {
                have = true;
                best_idx = j;
                best_size = entries[j].size;
            }
        }
        j = j + 1;
    }
    if have {
        Some(best_idx)
    } else {
        None
    }
}

/// A raw row takes part in grouping when its title and year fields are
/// both present and non-empty; nothing else is validated here.
pub open spec fn included(row: Seq<Seq<u8>>) -> bool {
    field(row, 0).len() > 0 && field(row, 1).len() > 0
}

/// The distinct year fields of the included rows, in first-seen order.
pub open spec fn group_keys(rows: Seq<Seq<Seq<u8>>>) -> Seq<Seq<u8>>
    decreases rows.len(),
{
    if rows.len() == 0 {
        Seq::empty()
    } else {
        let p = group_keys(rows.drop_last());
        let r = rows.last();
        if included(r) && !p.contains(field(r, 1)) {
            p.push(field(r, 1))
        } else {
            p
        }
    }
}

/// The titles of the included rows whose year field is `y`, in source
/// order.
pub open spec fn titles_for(rows: Seq<Seq<Seq<u8>>>, y: Seq<u8>) -> Seq<Seq<u8>> {
    rows.filter(|r: Seq<Seq<u8>>| included(r) && field(r, 1) == y).map_values(
        |r: Seq<Seq<u8>>| field(r, 0),
    )
}

/// How one appended row extends a year's title list.
proof fn lemma_titles_for_push(rows: Seq<Seq<Seq<u8>>>, row: Seq<Seq<u8>>, y: Seq<u8>)
    ensures
        titles_for(rows.push(row), y) == if included(row) && field(row, 1) == y {
            titles_for(rows, y).push(field(row, 0))
        } else {
            titles_for(rows, y)
        },
{
    reveal(Seq::<_>::filter);
    assert(rows.push(row).drop_last() =~= rows);
    assert(rows.push(row).last() == row);
    if included(row) && field(row, 1) == y {
        let f = rows.filter(|r: Seq<Seq<u8>>| included(r) && field(r, 1) == y);
        assert(f.push(row).map_values(|r: Seq<Seq<u8>>| field(r, 0)) =~= f.map_values(
            |r: Seq<Seq<u8>>| field(r, 0),
        ).push(field(row, 0)));
    }
}

/// One group of the organizer's output: a raw year field and the
/// titles filed under it.
#[derive(Debug, Clone, PartialEq)]
pub struct YearGroup {
    pub year: Vec<u8>,
    pub titles: Vec<Vec<u8>>,
}

/// The year keys of a group list.
pub open spec fn group_years(gs: Seq<YearGroup>) -> Seq<Seq<u8>> {
    gs.map_values(|g: YearGroup| g.year@)
}

/// Field `i` of an executable row; missing fields read as empty.
fn field_or_empty(row: &Vec<Vec<u8>>, i: usize) -> (r: Vec<u8>)
    ensures
        r@ == field(views_of(row@), i as int),
{
    if i < row.len() {
        copy_bytes(&row[i])
    } else {
        Vec::new()
    }
}

/// Does the row take part in grouping?
fn row_included(row: &Vec<Vec<u8>>) -> (r: bool)
    ensures
        r == included(views_of(row@)),
{
    if row.len() < 2 {
        return false;
    }
    row[0].len() > 0 && row[1].len() > 0
}

/// Does the key list already hold this year?
fn keys_contain(keys: &Vec<Vec<u8>>, y: &Vec<u8>) -> (r: bool)
    ensures
        r == views_of(keys@).contains(y@),
{
    let n = keys.len();
    let mut i: usize = 0;
    while i < n
        invariant
            0 <= i <= n,
            n == keys@.len(),
            forall|k: int| 0 <= k < i ==> (#[trigger] keys@[k])@ != y@,
        decreases n - i,
    {
        if bytes_eq(&keys[i], y) {
            proof {
                assert(views_of(keys@)[i as int] == y@);
            }
            return true;
        }
        i = i + 1;
    }
    proof {
        assert forall|k: int| 0 <= k < views_of(keys@).len() implies #[trigger] views_of(keys@)[k]
            != y@ by {
            assert(views_of(keys@)[k] == keys@[k]@);
        }
    }
    false
}

/// The titles of the included rows with year field `y`, in source
/// order.
fn collect_titles(rows: &Vec<Vec<Vec<u8>>>, y: &Vec<u8>) -> (r: Vec<Vec<u8>>)
    ensures
        views_of(r@) == titles_for(rows_view(rows@), y@),
{
    let ghost rv = rows_view(rows@);
    let mut out: Vec<Vec<u8>> = Vec::new();
    let n = rows.len();
    let mut i: usize = 0;
    proof {
        assert(rv.subrange(0, 0) =~= Seq::<Seq<Seq<u8>>>::empty());
        assert(views_of(out@) =~= titles_for(rv.subrange(0, 0), y@));
    }
    while i < n
        invariant
            0 <= i <= n,
            n == rows@.len(),
            rv == rows_view(rows@),
            views_of(out@) == titles_for(rv.subrange(0, i as int), y@),
        decreases n - i,
    {
        let ghost pre = rv.subrange(0, i as int);
        let ghost cur = rv.subrange(0, i + 1);
        proof {
            assert(cur =~= pre.push(rv[i as int]));
            lemma_titles_for_push(pre, rv[i as int], y@);
            assert(rv[i as int] == views_of(rows@[i as int]@));
        }
        let row = &rows[i];
        if row_included(row) {
            let year = field_or_empty(row, 1);
            if bytes_eq(&year, y) {
                let title = field_or_empty(row, 0);
                out.push(title);
                proof {
                    assert(views_of(out@) =~= titles_for(cur, y@));
                }
            } else {
                proof {
                    assert(views_of(out@) =~= titles_for(cur, y@));
                }
            }
        } else {
            proof {
                assert(views_of(out@) =~= titles_for(cur, y@));
            }
        }
        i = i + 1;
    }
    proof {
        assert(rv.subrange(0, n as int) =~= rv);
    }
    out
}

/// Group the titles of the raw rows by their year field: one group per
/// distinct year, in first-seen order; within a group the titles keep
/// source order. Rows without a title or year take no part.
pub fn group_titles_by_year(rows: &Vec<Vec<Vec<u8>>>) -> (r: Vec<YearGroup>)
    ensures
        group_years(r@) == group_keys(rows_view(rows@)),
        forall|k: int|
            0 <= k < r@.len() ==> views_of((#[trigger] r@[k]).titles@) == titles_for(
                rows_view(rows@),
                r@[k].year@,
            ),
{
    let ghost rv = rows_view(rows@);
    let mut keys: Vec<Vec<u8>> = Vec::new();
    let n = rows.len();
    let mut i: usize = 0;
    proof {
        assert(rv.subrange(0, 0) =~= Seq::<Seq<Seq<u8>>>::empty());
        assert(views_of(keys@) =~= group_keys(rv.subrange(0, 0)));
    }
    while i < n
        invariant
            0 <= i <= n,
            n == rows@.len(),
            rv == rows_view(rows@),
            views_of(keys@) == group_keys(rv.subrange(0, i as int)),
        decreases n - i,
    {
        let ghost pre = rv.subrange(0, i as int);
        let ghost cur = rv.subrange(0, i + 1);
        proof {
            assert(cur =~= pre.push(rv[i as int]));
            assert(cur.drop_last() =~= pre);
            assert(rv[i as int] == views_of(rows@[i as int]@));
        }
        let row = &rows[i];
        if row_included(row) {
            let year = field_or_empty(row, 1);
            if !keys_contain(&keys, &year) {
                keys.push(year);
                proof {
                    assert(views_of(keys@) =~= group_keys(cur));
                }
            } else {
                proof {
                    assert(views_of(keys@) =~= group_keys(cur));
                }
            }
        } else {
            proof {
                assert(views_of(keys@) =~= group_keys(cur));
            }
        }
        i = i + 1;
    }
    proof {
        assert(rv.subrange(0, n as int) =~= rv);
    }
    let mut groups: Vec<YearGroup> = Vec::new();
    let nk = keys.len();
    let mut k: usize = 0;
    proof {
        assert(group_years(groups@) =~= views_of(keys@).subrange(0, 0));
    }
    while k < nk
        invariant
            0 <= k <= nk,
            nk == keys@.len(),
            rv == rows_view(rows@),
            views_of(keys@) == group_keys(rv),
            group_years(groups@) == views_of(keys@).subrange(0, k as int),
            forall|t: int|
                0 <= t < groups@.len() ==> views_of((#[trigger] groups@[t]).titles@) == titles_for(
                    rv,
                    groups@[t].year@,
                ),
        decreases nk - k,
    {
        let year = copy_bytes(&keys[k]);
        let titles = collect_titles(rows, &year);
        let ghost gold = groups@;
        groups.push(YearGroup { year, titles });
        proof {
            assert(group_years(gold).len() == gold.len());
            assert(views_of(keys@).subrange(0, k as int).len() == k as int);
            assert(gold.len() == k as int);
            assert(views_of(keys@).len() == keys@.len());
            assert(groups@.last().year@ == keys@[k as int]@);
            assert(views_of(keys@)[k as int] == keys@[k as int]@);
            assert(views_of(groups@.last().titles@) == titles_for(rv, groups@.last().year@));
            assert forall|t: int| 0 <= t < groups@.len() implies (#[trigger] group_years(
                groups@,
            )[t]) == views_of(keys@)[t] by {
                if t < gold.len() {
                    assert(groups@[t] == gold[t]);
                    assert(group_years(gold)[t] == views_of(keys@).subrange(0, k as int)[t]);
                } else {
                    assert(groups@[t] == groups@.last());
                }
            }
            assert(group_years(groups@) =~= views_of(keys@).subrange(0, k + 1));
        }
        k = k + 1;
    }
    proof {
        assert(views_of(keys@).subrange(0, nk as int) =~= views_of(keys@));
    }
    groups
}

/// The bytes of `.movies.`.
pub open spec fn movies_infix() -> Seq<u8> {
    seq![46u8, 109u8, 111u8, 118u8, 105u8, 101u8, 115u8, 46u8]
}

/// The output directory name: the owner's identifier, `.movies.`, and
/// a decimal suffix.
pub open spec fn dir_name_spec(owner: Seq<u8>, n: nat) -> Seq<u8> {
    owner + movies_infix() + dec_digits(n)
}

/// Render the directory name for a given suffix.
pub fn dir_name(owner: &Vec<u8>, n: u32) -> (r: Vec<u8>)
    ensures
        r@ == dir_name_spec(owner@, n as nat),
{
    let mut out = copy_bytes(owner);
    out.push(46);
    out.push(109);
    out.push(111);
    out.push(118);
    out.push(105);
    out.push(101);
    out.push(115);
    out.push(46);
    proof {
        assert(out@ =~= owner@ + movies_infix());
    }
    let digits = u32_to_decimal(n);
    let nd = digits.len();
    let mut j: usize = 0;
    while j < nd
        invariant
            0 <= j <= nd,
            nd == digits@.len(),
            out@ =~= owner@ + movies_infix() + digits@.subrange(0, j as int),
        decreases nd - j,
    {
        out.push(digits[j]);
        proof {
            assert(out@ =~= owner@ + movies_infix() + digits@.subrange(0, j + 1));
        }
        j = j + 1;
    }
    proof {
        assert(digits@.subrange(0, nd as int) =~= digits@);
    }
    out
}

/// Relies on `rand::thread_rng` and `Rng::gen_range`: a draw from the
/// inclusive, non-empty range 0..=99999, which always lies within it.
#[verifier::external_body]
fn random_suffix() -> (r: u32)
    ensures
        r <= 99999,
{
    rand::thread_rng().gen_range(0u32..=99999)
}

/// A directory name with a freshly drawn numeric suffix of at most
/// five digits. Which suffix comes out is up to the random source;
/// the shape of the name is not.
pub fn fresh_dir_name(owner: &Vec<u8>) -> (r: Vec<u8>)
    ensures
        exists|n: nat| n <= 99999 && r@ == #[trigger] dir_name_spec(owner@, n),
{
    let n = random_suffix();
    let r = dir_name(owner, n);
    proof {
        assert(r@ == dir_name_spec(owner@, n as nat));
    }
    r
}

} // verus!
