//! Row validation and record loading.
//!
//! A raw row is a sequence of fields, each a byte string. Validation
//! applies these rules in order, first failure wins:
//! 1. empty (trimmed) title or year field — skip;
//! 2. year not an integer literal in 1900..=2021 — skip;
//! 3. languages field not wrapped in `[` and `]` — skip;
//! 4. more than 5 language tokens — skip;
//! 5. a language token longer than 20 bytes — skip.
//! The rating field alone never rejects a row: an unusable value is
//! replaced by 0.

use vstd::prelude::*;

use crate::bytes::{
    lemma_filter_push, rows_view, split_bytes, split_on, subvec, trim, trim_spec, views_of,
};
use crate::numbers::{
    int_literal_val, parse_int_in_range, parse_rating_tenths, rating_tenths_of,
};
use crate::record::{
    model_wf, notices_view, recs_view, Record, RecordModel, SkipModel, SkipNotice, SkipReason,
};

verus! {

/// Field `i` of a row; a missing trailing field reads as empty.
pub open spec fn field(row: Seq<Seq<u8>>, i: int) -> Seq<u8> {
    if 0 <= i < row.len() {
        row[i]
    } else {
        Seq::empty()
    }
}

/// The year a raw (trimmed) field denotes, kept only in 1900..=2021.
pub open spec fn year_of(s: Seq<u8>) -> Option<int> {
    match int_literal_val(s) {
        Some(v) => if 1900 <= v <= 2021 {
            Some(v)
        } else {
            None
        },
        None => None,
    }
}

/// The language tokens of the text between the brackets: split on
/// `;`, each piece trimmed, empty pieces dropped.
pub open spec fn language_tokens(inner: Seq<u8>) -> Seq<Seq<u8>> {
    split_on(inner, 59).map_values(|t: Seq<u8>| trim_spec(t)).filter(|t: Seq<u8>| t.len() > 0)
}

/// The language list a raw (trimmed) field denotes: the field must be
/// wrapped in `[` and `]`; anything else rejects the row.
pub open spec fn languages_of(s: Seq<u8>) -> Option<Seq<Seq<u8>>> {
    if s.len() >= 2 && s[0] == 91 && s[s.len() - 1] == 93 {
        Some(language_tokens(s.subrange(1, s.len() - 1)))
    } else {
        None
    }
}

/// The outcome of validating one raw row.
pub open spec fn validate_row_spec(row: Seq<Seq<u8>>) -> Result<RecordModel, SkipReason> {
    let title = trim_spec(field(row, 0));
    let year_s = trim_spec(field(row, 1));
    let langs_s = trim_spec(field(row, 2));
    let rating_s = trim_spec(field(row, 3));
    if title.len() == 0 || year_s.len() == 0 {
        Err(SkipReason::MissingTitleOrYear)
    } else {
        match year_of(year_s) {
            None => Err(SkipReason::InvalidYear),
            Some(y) => match languages_of(langs_s) {
                None => Err(SkipReason::InvalidLanguageFormat),
                Some(ls) => if ls.len() > 5 {
                    Err(SkipReason::TooManyLanguages)
                } else if exists|i: int| 0 <= i < ls.len() && (#[trigger] ls[i]).len() > 20 {
                    Err(SkipReason::LanguageTooLong)
                } else {
                    Ok(
                        RecordModel {
                            title,
                            year: y,
                            languages: ls,
                            rating_tenths: rating_tenths_of(rating_s),
                        },
                    )
                },
            },
        }
    }
}

/// Every record that validation accepts is well formed.
pub proof fn lemma_valid_record_wf(row: Seq<Seq<u8>>)
    ensures
        validate_row_spec(row) matches Ok(m) ==> model_wf(m),
{
}

/// Field `i` of an executable row, trimmed; missing fields are empty.
fn trimmed_field(row: &Vec<Vec<u8>>, i: usize) -> (r: Vec<u8>)
    ensures
        r@ == trim_spec(field(views_of(row@), i as int)),
{
    if i < row.len() {
        trim(&row[i])
    } else {
        Vec::new()
    }
}

/// Parse a (trimmed) languages field.
fn parse_languages(v: &Vec<u8>) -> (r: Option<Vec<Vec<u8>>>)
    ensures
        match r {
            Some(ls) => languages_of(v@) == Some(views_of(ls@)),
            None => languages_of(v@) is None,
        },
{
    let n = v.len();
    if n < 2 || v[0] != 91 || v[n - 1] != 93 {
        return None;
    }
    let inner = subvec(v, 1, n - 1);
    let parts = split_bytes(&inner, 59);
    let ghost pieces = split_on(inner@, 59);
    let mut out: Vec<Vec<u8>> = Vec::new();
    let mut i: usize = 0;
    proof {
        assert(pieces.subrange(0, 0) =~= Seq::<Seq<u8>>::empty());
        assert(pieces.subrange(0, 0).map_values(|t: Seq<u8>| trim_spec(t)) =~= Seq::<
            Seq<u8>,
        >::empty());
        assert(views_of(out@) =~= pieces.subrange(0, 0).map_values(|t: Seq<u8>| trim_spec(t))
            .filter(|t: Seq<u8>| t.len() > 0));
    }
    let np = parts.len();
    while i < np
        invariant
            0 <= i <= np,
            np == parts@.len(),
            views_of(parts@) == pieces,
            views_of(out@) == pieces.subrange(0, i as int).map_values(|t: Seq<u8>| trim_spec(t))
                .filter(|t: Seq<u8>| t.len() > 0),
        decreases np - i,
    {
        let t = trim(&parts[i]);
        proof {
            let pre = pieces.subrange(0, i as int);
            let cur = pieces.subrange(0, i + 1);
            assert(cur =~= pre.push(pieces[i as int]));
            assert(cur.map_values(|t: Seq<u8>| trim_spec(t)) =~= pre.map_values(
                |t: Seq<u8>| trim_spec(t),
            ).push(trim_spec(pieces[i as int])));
            lemma_filter_push(
                pre.map_values(|t: Seq<u8>| trim_spec(t)),
                |t: Seq<u8>| t.len() > 0,
                trim_spec(pieces[i as int]),
            );
            assert(pieces[i as int] == parts@[i as int]@);
        }
        if t.len() > 0 {
            out.push(t);
            proof {
                assert(views_of(out@) =~= pieces.subrange(0, i + 1).map_values(
                    |t: Seq<u8>| trim_spec(t),
                ).filter(|t: Seq<u8>| t.len() > 0));
            }
        } else {
            proof {
                assert(views_of(out@) =~= pieces.subrange(0, i + 1).map_values(
                    |t: Seq<u8>| trim_spec(t),
                ).filter(|t: Seq<u8>| t.len() > 0));
            }
        }
        i = i + 1;
    }
    proof {
        assert(pieces.subrange(0, np as int) =~= pieces);
        assert(inner@ == v@.subrange(1, n - 1));
    }
    Some(out)
}

/// The records that validation keeps, in source order.
pub open spec fn kept_of(rows: Seq<Seq<Seq<u8>>>) -> Seq<RecordModel>
    decreases rows.len(),
{
    if rows.len() == 0 {
        Seq::empty()
    } else {
        let prefix = kept_of(rows.drop_last());
        match validate_row_spec(rows.last()) {
            Ok(m) => prefix.push(m),
            Err(_) => prefix,
        }
    }
}

/// The notices for the rows that validation rejects, in source order.
/// Row `i` of the data is line `i + 2` of the source: the header is
/// line 1.
pub open spec fn skips_of(rows: Seq<Seq<Seq<u8>>>) -> Seq<SkipModel>
    decreases rows.len(),
{
    if rows.len() == 0 {
        Seq::empty()
    } else {
        let prefix = skips_of(rows.drop_last());
        match validate_row_spec(rows.last()) {
            Ok(_) => prefix,
            Err(e) => prefix.push(SkipModel { line: rows.len() as int + 1, reason: e }),
        }
    }
}

/// Every record that the loader keeps is well formed: non-empty title,
/// year in 1900..=2021, at most five languages of at most 20 bytes
/// each, and a rating of 0 or in 10..=100 tenths.
pub proof fn lemma_kept_records_well_formed(rows: Seq<Seq<Seq<u8>>>)
    ensures
        forall|i: int| 0 <= i < kept_of(rows).len() ==> model_wf(#[trigger] kept_of(rows)[i]),
    decreases rows.len(),
{
    if rows.len() > 0 {
        lemma_kept_records_well_formed(rows.drop_last());
        lemma_valid_record_wf(rows.last());
        let prefix = kept_of(rows.drop_last());
        match validate_row_spec(rows.last()) {
            Ok(m) => {
                assert(kept_of(rows) == prefix.push(m));
                assert forall|i: int| 0 <= i < kept_of(rows).len() implies model_wf(
                    kept_of(rows)[i],
                ) by {
                    if i < prefix.len() {
                        assert(kept_of(rows)[i] == prefix[i]);
                    } else {
                        assert(kept_of(rows)[i] == m);
                    }
                }
            },
            Err(_) => {
                assert(kept_of(rows) == prefix);
            },
        }
    }
}

/// An unreadable rating never rejects a row: if the row is kept and
/// its rating field is not a rating literal, the record's rating is
/// exactly 0.
pub proof fn lemma_unreadable_rating_kept_as_zero(row: Seq<Seq<u8>>)
    requires
        crate::numbers::rating_body_tenths(
            crate::numbers::strip_plus(trim_spec(field(row, 3))),
        ) is None,
    ensures
        validate_row_spec(row) matches Ok(m) ==> m.rating_tenths == 0,
{
}

/// Validate every row, keeping the valid records in source order and
/// a notice for each rejected row.
pub fn load_rows(rows: &Vec<Vec<Vec<u8>>>) -> (r: (Vec<Record>, Vec<SkipNotice>))
    requires
        rows@.len() + 2 <= usize::MAX,
    ensures
        recs_view(r.0@) == kept_of(rows_view(rows@)),
        notices_view(r.1@) == skips_of(rows_view(rows@)),
        forall|i: int| 0 <= i < r.0@.len() ==> (#[trigger] r.0@[i]).wf(),
{
    let ghost rv = rows_view(rows@);
    let mut recs: Vec<Record> = Vec::new();
    let mut notices: Vec<SkipNotice> = Vec::new();
    let n = rows.len();
    let mut i: usize = 0;
    proof {
        assert(rv.subrange(0, 0) =~= Seq::<Seq<Seq<u8>>>::empty());
        assert(recs_view(recs@) =~= kept_of(rv.subrange(0, 0)));
        assert(notices_view(notices@) =~= skips_of(rv.subrange(0, 0)));
    }
    while i < n
        invariant
            0 <= i <= n,
            n == rows@.len(),
            n + 2 <= usize::MAX,
            rv == rows_view(rows@),
            recs_view(recs@) == kept_of(rv.subrange(0, i as int)),
            notices_view(notices@) == skips_of(rv.subrange(0, i as int)),
            forall|k: int| 0 <= k < recs@.len() ==> (#[trigger] recs@[k]).wf(),
        decreases n - i,
    {
        let ghost pre = rv.subrange(0, i as int);
        let ghost cur = rv.subrange(0, i + 1);
        proof {
            assert(cur.drop_last() =~= pre);
            assert(cur.last() == rv[i as int]);
            assert(rv[i as int] == views_of(rows@[i as int]@));
        }
        match validate_row(&rows[i]) {
            Ok(rec) => {
                recs.push(rec);
                proof {
                    assert(recs_view(recs@) =~= kept_of(cur));
                    assert(notices_view(notices@) =~= skips_of(cur));
                }
            },
            Err(reason) => {
                let notice = SkipNotice { line: i + 2, reason };
                notices.push(notice);
                proof {
                    assert(cur.len() + 1 == i + 2);
                    assert(notices_view(notices@) =~= skips_of(cur));
                    assert(recs_view(recs@) =~= kept_of(cur));
                }
            },
        }
        i = i + 1;
    }
    proof {
        assert(rv.subrange(0, n as int) =~= rv);
    }
    (recs, notices)
}

/// Is any token longer than `cap` bytes?
fn any_token_longer(ls: &Vec<Vec<u8>>, cap: usize) -> (r: bool)
    ensures
        r == exists|i: int|
            0 <= i < views_of(ls@).len() && (#[trigger] views_of(ls@)[i]).len() > cap,
{
    let n = ls.len();
    let mut i: usize = 0;
    while i < n
        invariant
            0 <= i <= n,
            n == ls@.len(),
            forall|k: int| 0 <= k < i ==> (#[trigger] views_of(ls@)[k]).len() <= cap,
        decreases n - i,
    {
        if ls[i].len() > cap {
            assert(views_of(ls@)[i as int].len() > cap);
            return true;
        }
        assert(views_of(ls@)[i as int].len() <= cap);
        i = i + 1;
    }
    false
}

/// Validate one raw row.
pub fn validate_row(row: &Vec<Vec<u8>>) -> (r: Result<Record, SkipReason>)
    ensures
        match r {
            Ok(rec) => validate_row_spec(views_of(row@)) == Ok::<RecordModel, SkipReason>(rec@)
                && rec.wf(),
            Err(e) => validate_row_spec(views_of(row@)) == Err::<RecordModel, SkipReason>(e),
        },
{
    let title = trimmed_field(row, 0);
    let year_s = trimmed_field(row, 1);
    let langs_s = trimmed_field(row, 2);
    let rating_s = trimmed_field(row, 3);
    if title.len() == 0 || year_s.len() == 0 {
        return Err(SkipReason::MissingTitleOrYear);
    }
    let year = match parse_int_in_range(&year_s, 1900, 2021) {
        Some(y) => y,
        None => {
            return Err(SkipReason::InvalidYear);
        },
    };
    let languages = match parse_languages(&langs_s) {
        Some(ls) => ls,
        None => {
            return Err(SkipReason::InvalidLanguageFormat);
        },
    };
    if languages.len() > 5 {
        return Err(SkipReason::TooManyLanguages);
    }
    if any_token_longer(&languages, 20) {
        return Err(SkipReason::LanguageTooLong);
    }
    let rating_tenths = parse_rating_tenths(&rating_s);
    let rec = Record { title, year: year as i32, languages, rating_tenths };
    proof {
        let m = validate_row_spec(views_of(row@));
        assert(forall|k: int| 0 <= k < rec.languages@.len() ==> views_of(rec.languages@)[k]
            == (#[trigger] rec.languages@[k])@);
        assert(rec@.languages =~= views_of(rec.languages@));
        assert(m matches Ok(mm) && mm == rec@);
        lemma_valid_record_wf(views_of(row@));
    }
    Ok(rec)
}

} // verus!
