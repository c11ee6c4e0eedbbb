//! The CSV reader.
//!
//! Input is a byte buffer; RFC 4180 quoting applies: fields are comma
//! separated, a field may be enclosed in double quotes, a doubled
//! quote inside a quoted field stands for one quote, and quoted fields
//! may contain commas and line breaks.  CR, LF and CRLF all end a
//! record; blank lines are skipped.  The lexer is specified as a state
//! machine over bytes, and the reader is proved to return exactly the
//! records that machine accepts.
//!
//! The lexer rejects (as `csv_parse_error`) a quote inside an unquoted
//! field, a byte other than a separator after a closing quote, and a
//! quoted field left open at end of input.

use vstd::prelude::*;
use crate::error::{DiffError, Side, err_csv_parse, err_empty_file, err_row_width,
    msg_csv_parse, msg_empty_file, msg_row_width, msg_duplicate_column};
use crate::header::{strip_bom, has_dup, dup_before, normalize_header, validate_header};
use crate::order::lemma_dv_bytes;

verus! {

pub const QUOTE: u8 = 0x22;

pub const COMMA: u8 = 0x2c;

pub const LF: u8 = 0x0a;

pub const CR: u8 = 0x0d;

/// The lexer's mode between two bytes.
#[derive(Clone, Copy, Debug, PartialEq, Eq, Structural)]
pub enum LexMode {
    /// Outside any quoted field.
    Unquoted,
    /// Inside a quoted field.
    Quoted,
    /// Just after a quote inside a quoted field, which either closes
    /// the field or doubles to a literal quote.
    QuoteClose,
    /// Just after a CR, so that a following LF is part of the same
    /// line break.
    CrSeen,
    /// After a malformed quote; absorbing.
    Failed,
}

/// The whole lexer state: finished records, the open record, the open
/// field, whether the current line has any content, the mode, and the
/// CSV row a failure was detected in.
pub struct LexSt {
    pub recs: Seq<Seq<Seq<u8>>>,
    pub rec: Seq<Seq<u8>>,
    pub field: Seq<u8>,
    pub line_content: bool,
    pub mode: LexMode,
    pub fail_row: nat,
}

/// The state before any byte.
pub open spec fn lex_init() -> LexSt {
    LexSt {
        recs: Seq::empty(),
        rec: Seq::empty(),
        field: Seq::empty(),
        line_content: false,
        mode: LexMode::Unquoted,
        fail_row: 0,
    }
}

/// Ends the current line: a line with content becomes a finished
/// record; a blank line leaves no trace.
pub open spec fn lex_flush(st: LexSt) -> LexSt {
    if st.line_content {
        LexSt {
            recs: st.recs.push(st.rec.push(st.field)),
            rec: Seq::empty(),
            field: Seq::empty(),
            line_content: false,
            ..st
        }
    } else {
        st
    }
}

/// Enters the absorbing failure mode, recording the current CSV row.
pub open spec fn lex_fail(st: LexSt) -> LexSt {
    LexSt { mode: LexMode::Failed, fail_row: st.recs.len() + 1, ..st }
}

pub open spec fn step_unquoted(st: LexSt, b: u8) -> LexSt {
    if b == QUOTE {
        if st.field.len() == 0 {
            LexSt { mode: LexMode::Quoted, line_content: true, ..st }
        } else {
            lex_fail(st)
        }
    } else if b == COMMA {
        LexSt { rec: st.rec.push(st.field), field: Seq::empty(), line_content: true, ..st }
    } else if b == LF {
        LexSt { mode: LexMode::Unquoted, ..lex_flush(st) }
    } else if b == CR {
        LexSt { mode: LexMode::CrSeen, ..lex_flush(st) }
    } else {
        LexSt { field: st.field.push(b), line_content: true, ..st }
    }
}

pub open spec fn step_quoted(st: LexSt, b: u8) -> LexSt {
    if b == QUOTE {
        LexSt { mode: LexMode::QuoteClose, ..st }
    } else {
        LexSt { field: st.field.push(b), ..st }
    }
}

pub open spec fn step_quote_close(st: LexSt, b: u8) -> LexSt {
    if b == QUOTE {
        LexSt { field: st.field.push(QUOTE), mode: LexMode::Quoted, ..st }
    } else if b == COMMA {
        LexSt {
            rec: st.rec.push(st.field),
            field: Seq::empty(),
            mode: LexMode::Unquoted,
            ..st
        }
    } else if b == LF {
        LexSt { mode: LexMode::Unquoted, ..lex_flush(st) }
    } else if b == CR {
        LexSt { mode: LexMode::CrSeen, ..lex_flush(st) }
    } else {
        lex_fail(st)
    }
}

/// One byte of lexing.
pub open spec fn lex_step(st: LexSt, b: u8) -> LexSt {
    match st.mode {
        LexMode::Failed => st,
        LexMode::CrSeen => if b == LF {
            LexSt { mode: LexMode::Unquoted, ..st }
        } else {
            step_unquoted(LexSt { mode: LexMode::Unquoted, ..st }, b)
        },
        LexMode::Unquoted => step_unquoted(st, b),
        LexMode::Quoted => step_quoted(st, b),
        LexMode::QuoteClose => step_quote_close(st, b),
    }
}

/// The lexer state after a byte sequence.
pub open spec fn lex_fold(bytes: Seq<u8>) -> LexSt
    decreases bytes.len(),
{
    if bytes.len() == 0 {
        lex_init()
    } else {
        lex_step(lex_fold(bytes.drop_last()), bytes.last())
    }
}

/// What lexing a whole input yields: the records, or the failing CSV
/// row together with whether the failure was a quoted field left open
/// at end of input.
pub open spec fn csv_lex(bytes: Seq<u8>) -> Result<Seq<Seq<Seq<u8>>>, (nat, bool)> {
    let st = lex_fold(bytes);
    if st.mode is Failed {
        Err((st.fail_row, false))
    } else if st.mode is Quoted {
        Err(((st.recs.len() + 1) as nat, true))
    } else {
        Ok(lex_flush(st).recs)
    }
}

/// A record costs at least two bytes (its content and its line break),
/// except possibly the last: the measure below rises by at most one
/// per byte.
spec fn lex_measure(st: LexSt) -> nat {
    2 * st.recs.len() + (if st.line_content {
        1nat
    } else {
        0nat
    })
}

proof fn lemma_lex_step_measure(st: LexSt, b: u8)
    ensures
        lex_measure(lex_step(st, b)) <= lex_measure(st) + 1,
{
}

/// Far fewer records than bytes: twice the record count never exceeds
/// the input length.
proof fn lemma_lex_fold_rec_bound(bytes: Seq<u8>)
    ensures
        lex_measure(lex_fold(bytes)) <= bytes.len(),
        2 * lex_fold(bytes).recs.len() <= bytes.len(),
    decreases bytes.len(),
{
    if bytes.len() > 0 {
        lemma_lex_fold_rec_bound(bytes.drop_last());
        lemma_lex_step_measure(lex_fold(bytes.drop_last()), bytes.last());
    }
}

/// An accepted input yields at most one record per two bytes, plus
/// one trailing record.
pub proof fn lemma_csv_lex_len(bytes: Seq<u8>)
    ensures
        csv_lex(bytes) matches Ok(recs) ==> 2 * recs.len() <= bytes.len() + 2,
{
    lemma_lex_fold_rec_bound(bytes);
}

/// The executable lexer state; its view is a `LexSt`.
struct Lexer {
    recs: Vec<Vec<Vec<u8>>>,
    rec: Vec<Vec<u8>>,
    field: Vec<u8>,
    line_content: bool,
    mode: LexMode,
    fail_row: usize,
}

spec fn lexer_view(l: Lexer) -> LexSt {
    LexSt {
        recs: l.recs.deep_view(),
        rec: l.rec.deep_view(),
        field: l.field.deep_view(),
        line_content: l.line_content,
        mode: l.mode,
        fail_row: l.fail_row as nat,
    }
}

fn lexer_flush(l: &mut Lexer)
    ensures
        lexer_view(*final(l)) == lex_flush(lexer_view(*old(l))),
{
    proof {
        crate::order::lemma_dv_seq(&l.recs);
        crate::order::lemma_dv_seq(&l.rec);
    }
    if l.line_content {
        let mut field: Vec<u8> = Vec::new();
        core::mem::swap(&mut field, &mut l.field);
        let mut rec: Vec<Vec<u8>> = Vec::new();
        core::mem::swap(&mut rec, &mut l.rec);
        let ghost rec_dv = rec.deep_view();
        let ghost field_dv = field.deep_view();
        rec.push(field);
        proof {
            assert(rec.deep_view() =~= rec_dv.push(field_dv));
        }
        let ghost recs_dv = l.recs.deep_view();
        l.recs.push(rec);
        l.line_content = false;
        proof {
            assert(l.recs.deep_view() =~= recs_dv.push(rec_dv.push(field_dv)));
            assert(l.rec.deep_view() =~= Seq::<Seq<u8>>::empty());
            assert(l.field.deep_view() =~= Seq::<u8>::empty());
        }
    }
}

fn lexer_end_field(l: &mut Lexer)
    ensures
        lexer_view(*final(l)) == (LexSt {
            rec: lexer_view(*old(l)).rec.push(lexer_view(*old(l)).field),
            field: Seq::empty(),
            ..lexer_view(*old(l))
        }),
{
    let mut field: Vec<u8> = Vec::new();
    core::mem::swap(&mut field, &mut l.field);
    let ghost rec_dv = l.rec.deep_view();
    let ghost field_dv = field.deep_view();
    l.rec.push(field);
    proof {
        assert(l.rec.deep_view() =~= rec_dv.push(field_dv));
        assert(l.field.deep_view() =~= Seq::<u8>::empty());
    }
}

fn lexer_byte(l: &mut Lexer, b: u8)
    requires
        old(l).recs@.len() < usize::MAX,
    ensures
        lexer_view(*final(l)) == lex_step(lexer_view(*old(l)), b),
{
    match l.mode {
        LexMode::Failed => {},
        LexMode::CrSeen => {
            if b == LF {
                l.mode = LexMode::Unquoted;
            } else {
                l.mode = LexMode::Unquoted;
                lexer_byte_unquoted(l, b);
            }
        },
        LexMode::Unquoted => {
            lexer_byte_unquoted(l, b);
        },
        LexMode::Quoted => {
            if b == QUOTE {
                l.mode = LexMode::QuoteClose;
            } else {
                let ghost field_dv = l.field.deep_view();
                l.field.push(b);
                proof {
                    assert(l.field.deep_view() =~= field_dv.push(b));
                }
            }
        },
        LexMode::QuoteClose => {
            if b == QUOTE {
                let ghost field_dv = l.field.deep_view();
                l.field.push(QUOTE);
                l.mode = LexMode::Quoted;
                proof {
                    assert(l.field.deep_view() =~= field_dv.push(QUOTE));
                }
            } else if b == COMMA {
                lexer_end_field(l);
                l.mode = LexMode::Unquoted;
            } else if b == LF {
                lexer_flush(l);
                l.mode = LexMode::Unquoted;
            } else if b == CR {
                lexer_flush(l);
                l.mode = LexMode::CrSeen;
            } else {
                l.fail_row = l.recs.len() + 1;
                l.mode = LexMode::Failed;
                proof {
                    crate::order::lemma_dv_seq(&l.recs);
                }
            }
        },
    }
}

fn lexer_byte_unquoted(l: &mut Lexer, b: u8)
    requires
        old(l).mode == LexMode::Unquoted,
        old(l).recs@.len() < usize::MAX,
    ensures
        lexer_view(*final(l)) == step_unquoted(lexer_view(*old(l)), b),
{
    if b == QUOTE {
        if l.field.len() == 0 {
            l.mode = LexMode::Quoted;
            l.line_content = true;
            proof {
                assert(l.field.deep_view() =~= Seq::<u8>::empty());
            }
        } else {
            l.fail_row = l.recs.len() + 1;
            l.mode = LexMode::Failed;
            proof {
                crate::order::lemma_dv_seq(&l.recs);
            }
        }
    } else if b == COMMA {
        lexer_end_field(l);
        l.line_content = true;
    } else if b == LF {
        lexer_flush(l);
        l.mode = LexMode::Unquoted;
    } else if b == CR {
        lexer_flush(l);
        l.mode = LexMode::CrSeen;
    } else {
        let ghost field_dv = l.field.deep_view();
        l.field.push(b);
        l.line_content = true;
        proof {
            assert(l.field.deep_view() =~= field_dv.push(b));
        }
    }
}

/// Lexes a whole byte buffer into records.
pub fn lex_csv_bytes(bytes: &[u8]) -> (r: Result<Vec<Vec<Vec<u8>>>, (usize, bool)>)
    ensures
        match r {
            Ok(recs) => csv_lex(bytes@) == Ok::<Seq<Seq<Seq<u8>>>, (nat, bool)>(recs.deep_view()),
            Err((row, unterminated)) => csv_lex(bytes@) == Err::<Seq<Seq<Seq<u8>>>, (nat, bool)>(
                (row as nat, unterminated),
            ),
        },
{
    let mut l = Lexer {
        recs: Vec::new(),
        rec: Vec::new(),
        field: Vec::new(),
        line_content: false,
        mode: LexMode::Unquoted,
        fail_row: 0,
    };
    proof {
        assert(l.recs.deep_view() =~= Seq::<Seq<Seq<u8>>>::empty());
        assert(l.rec.deep_view() =~= Seq::<Seq<u8>>::empty());
        assert(l.field.deep_view() =~= Seq::<u8>::empty());
        assert(lexer_view(l) == lex_init());
        assert(bytes@.take(0) =~= Seq::<u8>::empty());
    }
    let n = bytes.len();
    let mut i: usize = 0;
    while i < n
        invariant
            i <= n,
            n == bytes@.len(),
            lexer_view(l) == lex_fold(bytes@.take(i as int)),
        decreases n - i,
    {
        proof {
            lemma_lex_fold_rec_bound(bytes@.take(i as int));
            crate::order::lemma_dv_seq(&l.recs);
        }
        let b = bytes[i];
        lexer_byte(&mut l, b);
        proof {
            assert(bytes@.take(i as int + 1).drop_last() =~= bytes@.take(i as int));
            assert(bytes@.take(i as int + 1).last() == bytes@[i as int]);
        }
        i = i + 1;
    }
    proof {
        assert(bytes@.take(n as int) =~= bytes@);
    }
    match l.mode {
        LexMode::Failed => Err((l.fail_row, false)),
        LexMode::Quoted => {
            proof {
                lemma_lex_fold_rec_bound(bytes@);
                crate::order::lemma_dv_seq(&l.recs);
            }
            Err((l.recs.len() + 1, true))
        },
        _ => {
            lexer_flush(&mut l);
            Ok(l.recs)
        },
    }
}

/// A data row: its 1-based CSV row index (the header is row 1) and its
/// cells in header order.
#[derive(Clone, Debug)]
pub struct IndexedRow {
    pub row_index: usize,
    pub cells: Vec<Vec<u8>>,
}

/// The reason text for a lexer failure.
pub open spec fn lex_reason(unterminated: bool) -> Seq<char> {
    if unterminated {
        "unterminated quoted field"@
    } else {
        "malformed quoting"@
    }
}

/// Whether every data record among `recs` has the header's width.
pub open spec fn widths_ok(recs: Seq<Seq<Seq<u8>>>, width: nat) -> bool {
    forall|i: int| 1 <= i < recs.len() ==> #[trigger] recs[i].len() == width
}

/// The first header position repeating an earlier name, or `-1`.
pub open spec fn first_dup_col_from(h: Seq<Seq<u8>>, j: int) -> int
    decreases h.len() - j,
{
    if j < 0 || j >= h.len() {
        -1
    } else if dup_before(h, j) {
        j
    } else {
        first_dup_col_from(h, j + 1)
    }
}

pub proof fn lemma_first_dup_col_is(h: Seq<Seq<u8>>, w: int)
    requires
        0 <= w < h.len(),
        dup_before(h, w),
        forall|q: int| 0 <= q < w ==> !dup_before(h, q),
    ensures
        first_dup_col_from(h, 0) == w,
{
    lemma_first_dup_col_from(h, 0, w);
}

proof fn lemma_first_dup_col_from(h: Seq<Seq<u8>>, j: int, w: int)
    requires
        0 <= j <= w < h.len(),
        dup_before(h, w),
        forall|q: int| j <= q < w ==> !dup_before(h, q),
    ensures
        first_dup_col_from(h, j) == w,
    decreases w - j,
{
    if j < w {
        lemma_first_dup_col_from(h, j + 1, w);
    }
}

/// The first data record whose width differs from the header's, or
/// `-1`.
pub open spec fn first_badwidth_from(recs: Seq<Seq<Seq<u8>>>, width: nat, i: int) -> int
    decreases recs.len() - i,
{
    if i < 1 || i >= recs.len() {
        -1
    } else if recs[i].len() != width {
        i
    } else {
        first_badwidth_from(recs, width, i + 1)
    }
}

pub proof fn lemma_first_badwidth_is(recs: Seq<Seq<Seq<u8>>>, width: nat, w: int)
    requires
        1 <= w < recs.len(),
        recs[w].len() != width,
        forall|q: int| 1 <= q < w ==> #[trigger] recs[q].len() == width,
    ensures
        first_badwidth_from(recs, width, 1) == w,
{
    lemma_first_badwidth_from(recs, width, 1, w);
}

proof fn lemma_first_badwidth_from(recs: Seq<Seq<Seq<u8>>>, width: nat, j: int, w: int)
    requires
        1 <= j <= w < recs.len(),
        recs[w].len() != width,
        forall|q: int| j <= q < w ==> #[trigger] recs[q].len() == width,
    ensures
        first_badwidth_from(recs, width, j) == w,
    decreases w - j,
{
    if j < w {
        lemma_first_badwidth_from(recs, width, j + 1, w);
    }
}

/// The message a failed read earns, by the first failing check: the
/// lexer failure's row and reason, the empty input, the first
/// repeated column name, or the first mis-sized row.
pub open spec fn side_err_msg(bytes: Seq<u8>, side: Side) -> Seq<char> {
    match csv_lex(bytes) {
        Err((row, unt)) => msg_csv_parse(side, row, lex_reason(unt)),
        Ok(recs) => {
            let header = strip_bom(recs[0]);
            if recs.len() == 0 {
                msg_empty_file(side)
            } else if has_dup(header) {
                msg_duplicate_column(side, header[first_dup_col_from(header, 0)])
            } else {
                msg_row_width(
                    side,
                    (first_badwidth_from(recs, header.len(), 1) + 1) as nat,
                    header.len(),
                    recs[first_badwidth_from(recs, header.len(), 1)].len(),
                )
            }
        },
    }
}

/// Reads a CSV byte buffer into a header and indexed data rows.
///
/// The first record is the header, with a UTF-8 byte-order mark
/// stripped from its first cell; duplicate column names are rejected;
/// every data row must have exactly the header's width; data rows are
/// numbered from 2 (the header is CSV row 1).
pub fn read_csv_bytes(bytes: &[u8], side: Side) -> (r: Result<
    (Vec<Vec<u8>>, Vec<IndexedRow>),
    DiffError,
>)
    ensures
        r matches Err(e) ==> e.message@ == side_err_msg(bytes@, side),
        csv_lex(bytes@) matches Err((row, unt)) ==> (r matches Err(e) && e.code@
            == "csv_parse_error"@ && e.message@ == msg_csv_parse(side, row, lex_reason(unt))),
        csv_lex(bytes@) matches Ok(recs) ==> {
            let header = strip_bom(recs[0]);
            &&& recs.len() == 0 ==> (r matches Err(e) && e.code@ == "empty_file"@ && e.message@
                == msg_empty_file(side))
            &&& recs.len() > 0 && has_dup(header) ==> (r matches Err(e) && e.code@
                == "duplicate_column_name"@)
            &&& recs.len() > 0 && !has_dup(header) && !widths_ok(recs, header.len()) ==> (
            r matches Err(e) && e.code@ == "row_width_mismatch"@ && exists|i: int|
                {
                    &&& 1 <= i < recs.len()
                    &&& #[trigger] recs[i].len() != header.len()
                    &&& forall|k: int| 1 <= k < i ==> recs[k].len() == header.len()
                    &&& e.message@ == msg_row_width(
                        side,
                        (i + 1) as nat,
                        header.len(),
                        recs[i].len(),
                    )
                })
            &&& recs.len() > 0 && !has_dup(header) && widths_ok(recs, header.len()) ==> (
            r matches Ok((h, rows)) && {
                &&& h.deep_view() == header
                &&& rows@.len() == recs.len() - 1
                &&& forall|i: int|
                    0 <= i < rows@.len() ==> (#[trigger] rows@[i]).row_index == i + 2
                        && rows@[i].cells.deep_view() == recs[i + 1]
                        && rows@[i].cells@.len() == header.len()
            })
        },
{
    let recs = match lex_csv_bytes(bytes) {
        Err((row, unterminated)) => {
            let reason = if unterminated {
                "unterminated quoted field"
            } else {
                "malformed quoting"
            };
            return Err(err_csv_parse(side, row as u64, reason));
        },
        Ok(recs) => recs,
    };
    if recs.len() == 0 {
        proof {
            assert(recs.deep_view() =~= Seq::<Seq<Seq<u8>>>::empty());
        }
        return Err(err_empty_file(side));
    }
    let ghost recs_dv = recs.deep_view();
    let mut header: Vec<Vec<u8>> = recs[0].clone();
    proof {
        broadcast use vstd::std_specs::vec::vec_clone_deep_view_proof;

        assert(recs@[0].deep_view() == recs_dv[0]);
    }
    normalize_header(&mut header);
    proof {
        assert(header.deep_view() == strip_bom(recs_dv[0]));
    }
    match validate_header(&header, side) {
        Ok(_) => {},
        Err(e) => {
            proof {
                let hd = header.deep_view();
                let w = choose|j: int|
                    {
                        &&& 0 <= j < hd.len()
                        &&& #[trigger] dup_before(hd, j)
                        &&& forall|k: int| 0 <= k < j ==> !dup_before(hd, k)
                        &&& e.message@ == msg_duplicate_column(side, hd[j])
                    };
                lemma_first_dup_col_is(hd, w);
            }
            return Err(e);
        },
    }
    let width = header.len();
    proof {
        assert(header.deep_view().len() == header@.len());
    }
    let mut rows: Vec<IndexedRow> = Vec::new();
    let mut i: usize = 1;
    while i < recs.len()
        invariant
            1 <= i <= recs@.len(),
            recs_dv == recs.deep_view(),
            recs_dv.len() == recs@.len(),
            recs_dv.len() > 0,
            csv_lex(bytes@) == Ok::<Seq<Seq<Seq<u8>>>, (nat, bool)>(recs_dv),
            header.deep_view() == strip_bom(recs_dv[0]),
            !has_dup(header.deep_view()),
            width as nat == strip_bom(recs_dv[0]).len(),
            forall|k: int| 1 <= k < i ==> #[trigger] recs_dv[k].len() == width,
            rows@.len() == i - 1,
            forall|k: int|
                0 <= k < rows@.len() ==> (#[trigger] rows@[k]).row_index == k + 2
                    && rows@[k].cells.deep_view() == recs_dv[k + 1] && rows@[k].cells@.len()
                    == width,
        decreases recs@.len() - i,
    {
        proof {
            assert(recs@[i as int].deep_view() == recs_dv[i as int]);
            assert(recs@[i as int].deep_view().len() == recs@[i as int]@.len());
        }
        let got = recs[i].len();
        if got != width {
            proof {
                assert(recs_dv[i as int].len() != strip_bom(recs_dv[0]).len());
                lemma_first_badwidth_is(recs_dv, strip_bom(recs_dv[0]).len(), i as int);
            }
            return Err(err_row_width(side, (i + 1) as u64, width, got));
        }
        let cells = recs[i].clone();
        proof {
            broadcast use vstd::std_specs::vec::vec_clone_deep_view_proof;

            assert(cells.deep_view() == recs_dv[i as int]);
            assert(cells@.len() == cells.deep_view().len());
        }
        rows.push(IndexedRow { row_index: i + 1, cells });
        i = i + 1;
    }
    Ok((header, rows))
}

} // verus!
