//! The validated record type, its mathematical model, and the reasons
//! a raw row can be rejected.

use vstd::prelude::*;

verus! {

/// One validated movie entry. Textual fields are byte strings; the
/// rating is held in tenths (93 stands for 9.3), with 0 meaning "no
/// usable rating".
#[derive(Debug, Clone, PartialEq)]
pub struct Record {
    pub title: Vec<u8>,
    pub year: i32,
    pub languages: Vec<Vec<u8>>,
    pub rating_tenths: u32,
}

/// The mathematical model of a `Record`.
pub struct RecordModel {
    pub title: Seq<u8>,
    pub year: int,
    pub languages: Seq<Seq<u8>>,
    pub rating_tenths: int,
}

impl View for Record {
    type V = RecordModel;

    open spec fn view(&self) -> RecordModel {
        RecordModel {
            title: self.title@,
            year: self.year as int,
            languages: self.languages@.map_values(|l: Vec<u8>| l@),
            rating_tenths: self.rating_tenths as int,
        }
    }
}

/// What every record in a loaded collection satisfies.
pub open spec fn model_wf(m: RecordModel) -> bool {
    &&& m.title.len() > 0
    &&& 1900 <= m.year <= 2021
    &&& m.languages.len() <= 5
    &&& forall|i: int| 0 <= i < m.languages.len() ==> (#[trigger] m.languages[i]).len() <= 20
    &&& (m.rating_tenths == 0 || 10 <= m.rating_tenths <= 100)
}

impl Record {
    pub open spec fn wf(&self) -> bool {
        model_wf(self@)
    }
}

/// The models of a sequence of records.
pub open spec fn recs_view(rs: Seq<Record>) -> Seq<RecordModel> {
    rs.map_values(|r: Record| r@)
}

/// Why a raw row was rejected; the variants mirror the validation
/// rules in the order they are applied.
#[derive(Debug, Clone, Copy, PartialEq, Eq, Structural)]
pub enum SkipReason {
    MissingTitleOrYear,
    InvalidYear,
    InvalidLanguageFormat,
    TooManyLanguages,
    LanguageTooLong,
}

/// A diagnostic for one rejected row: the 1-based source line (the
/// header is line 1, so the first data row is line 2) and the reason.
#[derive(Debug, Clone, Copy, PartialEq, Eq, Structural)]
pub struct SkipNotice {
    pub line: usize,
    pub reason: SkipReason,
}

/// The mathematical model of a `SkipNotice`.
pub struct SkipModel {
    pub line: int,
    pub reason: SkipReason,
}

impl View for SkipNotice {
    type V = SkipModel;

    open spec fn view(&self) -> SkipModel {
        SkipModel { line: self.line as int, reason: self.reason }
    }
}

/// The models of a sequence of notices.
pub open spec fn notices_view(ns: Seq<SkipNotice>) -> Seq<SkipModel> {
    ns.map_values(|n: SkipNotice| n@)
}

} // verus!
