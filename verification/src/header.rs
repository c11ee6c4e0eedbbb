//! Header validation and reconciliation.
//!
//! A header is an ordered list of column names (byte strings).  The
//! first name may carry a UTF-8 byte-order mark, which is stripped;
//! duplicate names are rejected; and the two sides' headers are
//! reconciled into the comparison-column list, either strictly (equal
//! ordered headers) or as multisets with a sorted column list.

use vstd::prelude::*;
use crate::error::{DiffError, Side, err_duplicate_column, err_header_mismatch, err_missing_key_column,
    msg_duplicate_column, msg_header_mismatch, msg_missing_key_column};
use crate::order::{bytes_eq, bytes_order, key_eq, lemma_dv_bytes, lemma_dv_seq, sort_columns, dv_seq};

verus! {

/// The position of `name` in `h`: its first index, or `-1` when absent.
pub open spec fn col_idx(h: Seq<Seq<u8>>, name: Seq<u8>) -> int
    decreases h.len(),
{
    if h.len() == 0 {
        -1
    } else if h[0] == name {
        0
    } else {
        let rest = col_idx(h.skip(1), name);
        if rest < 0 {
            -1
        } else {
            rest + 1
        }
    }
}

/// Whether `name` occurs in `h`.
pub open spec fn has_col(h: Seq<Seq<u8>>, name: Seq<u8>) -> bool {
    exists|i: int| 0 <= i < h.len() && h[i] == name
}

/// `col_idx` finds the first occurrence of a present name and `-1` for
/// an absent one.
pub proof fn lemma_col_idx(h: Seq<Seq<u8>>, name: Seq<u8>)
    ensures
        has_col(h, name) <==> col_idx(h, name) >= 0,
        col_idx(h, name) >= 0 ==> col_idx(h, name) < h.len() && h[col_idx(h, name)] == name,
        col_idx(h, name) >= 0 ==> forall|j: int| 0 <= j < col_idx(h, name) ==> h[j] != name,
        !has_col(h, name) ==> col_idx(h, name) == -1,
    decreases h.len(),
{
    if h.len() == 0 {
    } else if h[0] == name {
    } else {
        lemma_col_idx(h.skip(1), name);
        assert forall|i: int| 0 <= i < h.len() && h[i] == name implies has_col(h.skip(1), name) by {
            assert(h.skip(1)[i - 1] == h[i]);
        }
        if has_col(h, name) {
            let r = col_idx(h.skip(1), name);
            assert(h[r + 1] == h.skip(1)[r]);
            assert forall|j: int| 0 <= j < r + 1 implies h[j] != name by {
                if j > 0 {
                    assert(h.skip(1)[j - 1] == h[j]);
                }
            }
        }
    }
}

/// Finds the first occurrence of `name` in `header`.
pub fn find_col(header: &Vec<Vec<u8>>, name: &Vec<u8>) -> (r: Option<usize>)
    ensures
        match r {
            Some(i) => i as int == col_idx(header.deep_view(), name@),
            None => !has_col(header.deep_view(), name@),
        },
{
    proof {
        lemma_col_idx(header.deep_view(), name@);
    }
    let mut i: usize = 0;
    while i < header.len()
        invariant
            i <= header@.len(),
            header.deep_view().len() == header@.len(),
            forall|j: int| 0 <= j < i ==> header.deep_view()[j] != name@,
        decreases header@.len() - i,
    {
        proof {
            lemma_dv_bytes(header, i as int);
        }
        if bytes_eq(&header[i], name) {
            proof {
                lemma_col_idx(header.deep_view(), name@);
                let c = col_idx(header.deep_view(), name@);
                assert(header.deep_view()[i as int] == name@);
                assert(c >= 0);
                assert(c >= i);
                assert(c <= i) by {
                    if c > i {
                        assert(header.deep_view()[i as int] != name@);
                    }
                }
            }
            return Some(i);
        }
        i = i + 1;
    }
    proof {
        lemma_col_idx(header.deep_view(), name@);
    }
    None
}

/// Whether some name occurs twice in `h`.
pub open spec fn has_dup(h: Seq<Seq<u8>>) -> bool {
    exists|i: int, j: int| 0 <= i < j < h.len() && h[i] == h[j]
}

/// Whether `h[j]` already occurred before position `j`.
pub open spec fn dup_before(h: Seq<Seq<u8>>, j: int) -> bool {
    exists|i: int| 0 <= i < j && h[i] == h[j]
}

/// Rejects a header that repeats a column name; the error cites the
/// first repeated name.
pub fn validate_header(header: &Vec<Vec<u8>>, side: Side) -> (r: Result<(), DiffError>)
    ensures
        r is Ok <==> !has_dup(header.deep_view()),
        r matches Err(e) ==> e.code@ == "duplicate_column_name"@ && exists|j: int|
            {
                &&& 0 <= j < header.deep_view().len()
                &&& #[trigger] dup_before(header.deep_view(), j)
                &&& forall|k: int| 0 <= k < j ==> !dup_before(header.deep_view(), k)
                &&& e.message@ == msg_duplicate_column(side, header.deep_view()[j])
            },
{
    let ghost h = header.deep_view();
    let mut j: usize = 1;
    if header.len() == 0 {
        return Ok(());
    }
    while j < header.len()
        invariant
            1 <= j <= header@.len(),
            h == header.deep_view(),
            h.len() == header@.len(),
            forall|k: int| 0 <= k < j ==> !dup_before(h, k),
        decreases header@.len() - j,
    {
        let mut i: usize = 0;
        while i < j
            invariant
                0 <= i <= j < header@.len(),
                h == header.deep_view(),
                h.len() == header@.len(),
                forall|k: int| 0 <= k < i ==> h[k] != h[j as int],
                forall|k: int| 0 <= k < j ==> !dup_before(h, k),
            decreases j - i,
        {
            proof {
                lemma_dv_bytes(header, i as int);
                lemma_dv_bytes(header, j as int);
            }
            if bytes_eq(&header[i], &header[j]) {
                proof {
                    assert(h[i as int] == h[j as int]);
                    assert(dup_before(h, j as int));
                    assert(has_dup(h));
                }
                return Err(err_duplicate_column(side, &header[j]));
            }
            i = i + 1;
        }
        proof {
            assert(!dup_before(h, j as int));
        }
        j = j + 1;
    }
    proof {
        assert forall|p: int, q: int| 0 <= p < q < h.len() implies h[p] != h[q] by {
            assert(!dup_before(h, q));
            if h[p] == h[q] {
                assert(dup_before(h, q));
            }
        }
    }
    Ok(())
}

/// The three bytes of the UTF-8 byte-order mark.
pub open spec fn bom_prefix(cell: Seq<u8>) -> bool {
    cell.len() >= 3 && cell[0] == 0xef && cell[1] == 0xbb && cell[2] == 0xbf
}

/// A header with the byte-order mark stripped from its first name.
pub open spec fn strip_bom(h: Seq<Seq<u8>>) -> Seq<Seq<u8>> {
    if h.len() > 0 && bom_prefix(h[0]) {
        h.update(0, h[0].skip(3))
    } else {
        h
    }
}

/// Strips a UTF-8 byte-order mark from the first header name, if one
/// is there.
pub fn normalize_header(header: &mut Vec<Vec<u8>>)
    ensures
        final(header).deep_view() == strip_bom(old(header).deep_view()),
{
    proof {
        lemma_dv_seq(header);
    }
    if header.len() == 0 {
        return ;
    }
    proof {
        lemma_dv_bytes(header, 0);
    }
    let first_len = header[0].len();
    if first_len >= 3 && header[0][0] == 0xef && header[0][1] == 0xbb && header[0][2] == 0xbf {
        let mut stripped: Vec<u8> = Vec::new();
        let mut i: usize = 3;
        proof {
            assert(stripped@ =~= header@[0]@.subrange(3, 3));
        }
        while i < first_len
            invariant
                3 <= i <= first_len,
                header@.len() > 0,
                first_len == header@[0]@.len(),
                stripped@ == header@[0]@.subrange(3, i as int),
            decreases first_len - i,
        {
            let b = header[0][i];
            stripped.push(b);
            proof {
                assert(stripped@ =~= header@[0]@.subrange(3, i as int + 1));
            }
            i = i + 1;
        }
        let ghost pre = header.deep_view();
        proof {
            assert(stripped@ =~= pre[0].skip(3));
        }
        header[0] = stripped;
        proof {
            let target = pre.update(0, pre[0].skip(3));
            assert forall|k: int| 0 <= k < header@.len() implies header.deep_view()[k] == target[k] by {
                if k == 0 {
                    assert(header@[0].deep_view() =~= pre[0].skip(3));
                } else {
                    assert(header@[k].deep_view() == pre[k]);
                }
            }
            assert(header.deep_view() =~= target);
        }
    } else {
        proof {
            assert(!bom_prefix(header.deep_view()[0]));
        }
    }
}

/// The comparison-column list two reconciled headers give rise to:
/// the shared header under `strict`, the sorted column list under
/// `sorted`.
pub fn comparison_columns(
    a_header: &Vec<Vec<u8>>,
    b_header: &Vec<Vec<u8>>,
    sorted_mode: bool,
) -> (r: Result<Vec<Vec<u8>>, DiffError>)
    ensures
        !sorted_mode ==> {
            &&& a_header.deep_view() == b_header.deep_view() ==> (r matches Ok(c) && c.deep_view()
                == a_header.deep_view())
            &&& a_header.deep_view() != b_header.deep_view() ==> (r matches Err(e) && e.code@
                == "header_mismatch"@ && e.message@ == msg_header_mismatch(false))
        },
        sorted_mode ==> {
            &&& a_header.deep_view().to_multiset() == b_header.deep_view().to_multiset() ==> (
            r matches Ok(c) && c.deep_view() == a_header.deep_view().sort_by(bytes_order()))
            &&& a_header.deep_view().to_multiset() != b_header.deep_view().to_multiset() ==> (
            r matches Err(e) && e.code@ == "header_mismatch"@ && e.message@ == msg_header_mismatch(
                true,
            ))
        },
{
    if !sorted_mode {
        if key_eq(a_header, b_header) {
            let c = a_header.clone();
            proof {
                broadcast use vstd::std_specs::vec::vec_clone_deep_view_proof;

            }
            Ok(c)
        } else {
            Err(err_header_mismatch(false))
        }
    } else {
        let a_sorted = sort_columns(a_header);
        let b_sorted = sort_columns(b_header);
        if key_eq(&a_sorted, &b_sorted) {
            proof {
                assert(a_header.deep_view().to_multiset() == b_header.deep_view().to_multiset());
            }
            Ok(a_sorted)
        } else {
            proof {
                if a_header.deep_view().to_multiset() == b_header.deep_view().to_multiset() {
                    crate::order::lemma_bytes_total_ordering();
                    a_header.deep_view().lemma_sort_by_ensures(bytes_order());
                    b_header.deep_view().lemma_sort_by_ensures(bytes_order());
                    vstd::seq_lib::lemma_sorted_unique(
                        a_header.deep_view().sort_by(bytes_order()),
                        b_header.deep_view().sort_by(bytes_order()),
                        bytes_order(),
                    );
                }
            }
            Err(err_header_mismatch(true))
        }
    }
}

/// The first declared key column absent from one of the headers, or
/// `-1`.
pub open spec fn first_absent_col(
    ha: Seq<Seq<u8>>,
    hb: Seq<Seq<u8>>,
    kc: Seq<Seq<u8>>,
    j: int,
) -> int
    decreases kc.len() - j,
{
    if j < 0 || j >= kc.len() {
        -1
    } else if !(has_col(ha, kc[j]) && has_col(hb, kc[j])) {
        j
    } else {
        first_absent_col(ha, hb, kc, j + 1)
    }
}

pub proof fn lemma_first_absent_is(ha: Seq<Seq<u8>>, hb: Seq<Seq<u8>>, kc: Seq<Seq<u8>>, w: int)
    requires
        0 <= w < kc.len(),
        !(has_col(ha, kc[w]) && has_col(hb, kc[w])),
        forall|q: int| 0 <= q < w ==> has_col(ha, #[trigger] kc[q]) && has_col(hb, kc[q]),
    ensures
        first_absent_col(ha, hb, kc, 0) == w,
{
    lemma_first_absent_from(ha, hb, kc, 0, w);
}

proof fn lemma_first_absent_from(
    ha: Seq<Seq<u8>>,
    hb: Seq<Seq<u8>>,
    kc: Seq<Seq<u8>>,
    j: int,
    w: int,
)
    requires
        0 <= j <= w < kc.len(),
        !(has_col(ha, kc[w]) && has_col(hb, kc[w])),
        forall|q: int| j <= q < w ==> has_col(ha, #[trigger] kc[q]) && has_col(hb, kc[q]),
    ensures
        first_absent_col(ha, hb, kc, j) == w,
    decreases w - j,
{
    if j < w {
        lemma_first_absent_from(ha, hb, kc, j + 1, w);
    }
}

/// Checks that every declared key column occurs in both headers; the
/// error cites the first missing name, in declaration order.
pub fn check_key_columns(
    key_columns: &Vec<Vec<u8>>,
    a_header: &Vec<Vec<u8>>,
    b_header: &Vec<Vec<u8>>,
) -> (r: Result<(), DiffError>)
    ensures
        r is Ok <==> forall|i: int|
            0 <= i < key_columns.deep_view().len() ==> has_col(
                a_header.deep_view(),
                #[trigger] key_columns.deep_view()[i],
            ) && has_col(b_header.deep_view(), key_columns.deep_view()[i]),
        r matches Err(e) ==> e.code@ == "missing_key_column"@ && e.message@
            == msg_missing_key_column(
            key_columns.deep_view()[first_absent_col(
                a_header.deep_view(),
                b_header.deep_view(),
                key_columns.deep_view(),
                0,
            )],
        ) && !(forall|i: int|
            0 <= i < key_columns.deep_view().len() ==> has_col(
                a_header.deep_view(),
                #[trigger] key_columns.deep_view()[i],
            ) && has_col(b_header.deep_view(), key_columns.deep_view()[i])),
{
    let mut i: usize = 0;
    while i < key_columns.len()
        invariant
            i <= key_columns@.len(),
            key_columns.deep_view().len() == key_columns@.len(),
            forall|k: int| 0 <= k < i ==> has_col(
                a_header.deep_view(),
                #[trigger] key_columns.deep_view()[k],
            ) && has_col(b_header.deep_view(), key_columns.deep_view()[k]),
        decreases key_columns@.len() - i,
    {
        proof {
            lemma_dv_bytes(key_columns, i as int);
        }
        let in_a = find_col(a_header, &key_columns[i]);
        let in_b = find_col(b_header, &key_columns[i]);
        if in_a.is_none() || in_b.is_none() {
            proof {
                lemma_first_absent_is(
                    a_header.deep_view(),
                    b_header.deep_view(),
                    key_columns.deep_view(),
                    i as int,
                );
            }
            return Err(err_missing_key_column(&key_columns[i]));
        }
        proof {
            lemma_col_idx(a_header.deep_view(), key_columns.deep_view()[i as int]);
            lemma_col_idx(b_header.deep_view(), key_columns.deep_view()[i as int]);
        }
        i = i + 1;
    }
    Ok(())
}

} // verus!
