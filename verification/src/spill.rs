//! The spill record codec.
//!
//! In the partitioned path every routed row is held as one JSON object
//! per line: `{"key":[…],"row_index":N,"row":{…}}`.  The encoder below
//! produces exactly that canonical line; the decoder accepts a line
//! only if it is such a canonical encoding (it re-encodes what it
//! parsed and compares), so everything a decoder returns is pinned to
//! the encoder's output.  Strings escape the quote, the backslash and
//! control bytes; all other bytes pass through unchanged.

use vstd::prelude::*;
use crate::options::{dec_val, digit_val};
use crate::records::{SpillRecord, RecV, rec_view, recs_view, pairs_view};
use crate::text::{ascii_bytes, dec_bytes, dec_bytes_u64, push_str_bytes};
use crate::order::bytes_eq;

verus! {

/// The lowercase hex digit of a value below 16.
pub open spec fn hex_digit(n: u8) -> u8 {
    if n < 10 {
        (48 + n) as u8
    } else {
        (87 + n) as u8
    }
}

/// How one byte appears inside a JSON string: quote and backslash are
/// escaped, control bytes become `\u00XX`, all else stands alone.
pub open spec fn esc_byte(b: u8) -> Seq<u8> {
    if b == 34 {
        seq![92u8, 34u8]
    } else if b == 92 {
        seq![92u8, 92u8]
    } else if b < 32 {
        seq![92u8, 117u8, 48u8, 48u8, hex_digit(b / 16), hex_digit(b % 16)]
    } else {
        seq![b]
    }
}

/// A byte string escaped for a JSON string body.
pub open spec fn esc(s: Seq<u8>) -> Seq<u8>
    decreases s.len(),
{
    if s.len() == 0 {
        Seq::empty()
    } else {
        esc(s.drop_last()) + esc_byte(s.last())
    }
}

/// A byte string as a JSON string, quotes included.
pub open spec fn jstr(s: Seq<u8>) -> Seq<u8> {
    seq![34u8] + esc(s) + seq![34u8]
}

/// The items of a JSON array of strings, comma separated.
pub open spec fn jarr_items(parts: Seq<Seq<u8>>) -> Seq<u8>
    decreases parts.len(),
{
    if parts.len() == 0 {
        Seq::empty()
    } else {
        jarr_items(parts.drop_last()) + (if parts.len() > 1 {
            seq![44u8]
        } else {
            Seq::empty()
        }) + jstr(parts.last())
    }
}

/// A JSON array of strings.
pub open spec fn jarr(parts: Seq<Seq<u8>>) -> Seq<u8> {
    seq![91u8] + jarr_items(parts) + seq![93u8]
}

/// The members of a JSON object of string pairs, comma separated.
pub open spec fn jobj_items(pairs: Seq<(Seq<u8>, Seq<u8>)>) -> Seq<u8>
    decreases pairs.len(),
{
    if pairs.len() == 0 {
        Seq::empty()
    } else {
        jobj_items(pairs.drop_last()) + (if pairs.len() > 1 {
            seq![44u8]
        } else {
            Seq::empty()
        }) + jstr(pairs.last().0) + seq![58u8] + jstr(pairs.last().1)
    }
}

/// A JSON object of string pairs.
pub open spec fn jobj(pairs: Seq<(Seq<u8>, Seq<u8>)>) -> Seq<u8> {
    seq![123u8] + jobj_items(pairs) + seq![125u8]
}

/// The canonical spill line of a record, without the newline.
pub open spec fn spill_line(r: RecV) -> Seq<u8> {
    ascii_bytes("{\"key\":"@) + jarr(r.key) + ascii_bytes(",\"row_index\":"@) + dec_bytes(
        r.row_index,
    ) + ascii_bytes(",\"row\":"@) + jobj(r.row) + seq![125u8]
}

fn push_esc(out: &mut Vec<u8>, s: &Vec<u8>)
    ensures
        final(out)@ == old(out)@ + esc(s@),
{
    let mut i: usize = 0;
    proof {
        assert(s@.take(0) =~= Seq::<u8>::empty());
        assert(out@ =~= old(out)@ + esc(s@.take(0)));
    }
    while i < s.len()
        invariant
            i <= s@.len(),
            out@ == old(out)@ + esc(s@.take(i as int)),
        decreases s@.len() - i,
    {
        let b = s[i];
        let ghost pre = out@;
        if b == 34 {
            out.push(92);
            out.push(34);
        } else if b == 92 {
            out.push(92);
            out.push(92);
        } else if b < 32 {
            out.push(92);
            out.push(117);
            out.push(48);
            out.push(48);
            let hi = b / 16;
            let lo = b % 16;
            out.push(
                if hi < 10 {
                    48 + hi
                } else {
                    87 + hi
                },
            );
            out.push(
                if lo < 10 {
                    48 + lo
                } else {
                    87 + lo
                },
            );
        } else {
            out.push(b);
        }
        proof {
            assert(s@.take(i as int + 1).drop_last() =~= s@.take(i as int));
            assert(s@.take(i as int + 1).last() == s@[i as int]);
            assert(out@ =~= pre + esc_byte(s@[i as int]));
            assert(out@ =~= old(out)@ + esc(s@.take(i as int + 1)));
        }
        i = i + 1;
    }
    proof {
        assert(s@.take(s@.len() as int) =~= s@);
    }
}

fn push_jstr(out: &mut Vec<u8>, s: &Vec<u8>)
    ensures
        final(out)@ == old(out)@ + jstr(s@),
{
    out.push(34);
    push_esc(out, s);
    out.push(34);
    proof {
        assert(out@ =~= old(out)@ + jstr(s@));
    }
}

/// Encodes a record as its canonical spill line, without the newline.
pub fn encode_spill_record(rec: &SpillRecord) -> (r: Vec<u8>)
    ensures
        r@ == spill_line(rec_view(*rec)),
{
    let mut out: Vec<u8> = Vec::new();
    proof {
        reveal_strlit("{\"key\":");
        reveal_strlit(",\"row_index\":");
        reveal_strlit(",\"row\":");
    }
    push_str_bytes(&mut out, "{\"key\":");
    out.push(91);
    let ghost key_dv = rec.key.deep_view();
    let mut i: usize = 0;
    proof {
        assert(key_dv.take(0) =~= Seq::<Seq<u8>>::empty());
        assert(out@ =~= ascii_bytes("{\"key\":"@) + seq![91u8] + jarr_items(key_dv.take(0)));
    }
    while i < rec.key.len()
        invariant
            i <= rec.key@.len(),
            key_dv == rec.key.deep_view(),
            key_dv.len() == rec.key@.len(),
            out@ == ascii_bytes("{\"key\":"@) + seq![91u8] + jarr_items(key_dv.take(i as int)),
        decreases rec.key@.len() - i,
    {
        let ghost pre = out@;
        if i > 0 {
            out.push(44);
        }
        push_jstr(&mut out, &rec.key[i]);
        proof {
            crate::order::lemma_dv_bytes(&rec.key, i as int);
            assert(key_dv.take(i as int + 1).drop_last() =~= key_dv.take(i as int));
            assert(key_dv.take(i as int + 1).last() == key_dv[i as int]);
            if i > 0 {
                assert(out@ =~= pre + seq![44u8] + jstr(key_dv[i as int]));
            } else {
                assert(out@ =~= pre + jstr(key_dv[i as int]));
            }
            assert(out@ =~= ascii_bytes("{\"key\":"@) + seq![91u8] + jarr_items(
                key_dv.take(i as int + 1),
            ));
        }
        i = i + 1;
    }
    proof {
        assert(key_dv.take(rec.key@.len() as int) =~= key_dv);
    }
    out.push(93);
    push_str_bytes(&mut out, ",\"row_index\":");
    let mut num = dec_bytes_u64(rec.row_index as u64);
    out.append(&mut num);
    push_str_bytes(&mut out, ",\"row\":");
    out.push(123);
    let ghost row_pv = pairs_view(rec.row@);
    let ghost head = ascii_bytes("{\"key\":"@) + jarr(key_dv) + ascii_bytes(",\"row_index\":"@)
        + dec_bytes(rec.row_index as nat) + ascii_bytes(",\"row\":"@) + seq![123u8];
    proof {
        assert(row_pv.take(0) =~= Seq::<(Seq<u8>, Seq<u8>)>::empty());
        assert(out@ =~= head + jobj_items(row_pv.take(0)));
    }
    let mut j: usize = 0;
    while j < rec.row.len()
        invariant
            j <= rec.row@.len(),
            row_pv == pairs_view(rec.row@),
            row_pv.len() == rec.row@.len(),
            out@ == head + jobj_items(row_pv.take(j as int)),
        decreases rec.row@.len() - j,
    {
        let ghost pre = out@;
        if j > 0 {
            out.push(44);
        }
        push_jstr(&mut out, &rec.row[j].0);
        out.push(58);
        push_jstr(&mut out, &rec.row[j].1);
        proof {
            assert(row_pv.take(j as int + 1).drop_last() =~= row_pv.take(j as int));
            assert(row_pv.take(j as int + 1).last() == row_pv[j as int]);
            assert(row_pv[j as int] == (rec.row@[j as int].0@, rec.row@[j as int].1@));
            if j > 0 {
                assert(out@ =~= pre + seq![44u8] + jstr(row_pv[j as int].0) + seq![58u8] + jstr(
                    row_pv[j as int].1,
                ));
            } else {
                assert(out@ =~= pre + jstr(row_pv[j as int].0) + seq![58u8] + jstr(
                    row_pv[j as int].1,
                ));
            }
            assert(out@ =~= head + jobj_items(row_pv.take(j as int + 1)));
        }
        j = j + 1;
    }
    proof {
        assert(row_pv.take(rec.row@.len() as int) =~= row_pv);
    }
    out.push(125);
    out.push(125);
    proof {
        assert(out@ =~= spill_line(rec_view(*rec)));
    }
    out
}

/// Whether `lit` occurs in `line` at `pos`.
pub open spec fn lit_at(line: Seq<u8>, pos: int, lit: Seq<u8>) -> bool {
    &&& 0 <= pos
    &&& pos + lit.len() <= line.len()
    &&& line.subrange(pos, pos + lit.len()) == lit
}

/// The value of a hex digit byte, lowercase.
pub open spec fn hex_val_s(b: u8) -> Option<u8> {
    if 48 <= b <= 57 {
        Some((b - 48) as u8)
    } else if 97 <= b <= 102 {
        Some((b - 87) as u8)
    } else {
        None
    }
}

/// The string-body parser: from just inside the opening quote,
/// unescapes until the closing quote and says where it ended.
pub open spec fn jstr_body(line: Seq<u8>, i: int, acc: Seq<u8>) -> Option<(Seq<u8>, int)>
    decreases line.len() - i,
{
    if i < 0 || i >= line.len() {
        None
    } else if line[i] == 34 {
        Some((acc, i + 1))
    } else if line[i] == 92 {
        if i + 1 >= line.len() {
            None
        } else if line[i + 1] == 34 {
            jstr_body(line, i + 2, acc.push(34))
        } else if line[i + 1] == 92 {
            jstr_body(line, i + 2, acc.push(92))
        } else if line[i + 1] == 117 {
            if line.len() - i <= 5 {
                None
            } else if line[i + 2] != 48 || line[i + 3] != 48 {
                None
            } else {
                match (hex_val_s(line[i + 4]), hex_val_s(line[i + 5])) {
                    (Some(hi), Some(lo)) => jstr_body(line, i + 6, acc.push((hi * 16 + lo) as u8)),
                    _ => None,
                }
            }
        } else {
            None
        }
    } else {
        jstr_body(line, i + 1, acc.push(line[i]))
    }
}

/// The JSON string parser at a position.
pub open spec fn jstr_parse(line: Seq<u8>, pos: int) -> Option<(Seq<u8>, int)> {
    if pos < 0 || pos >= line.len() || line[pos] != 34 {
        None
    } else {
        jstr_body(line, pos + 1, Seq::empty())
    }
}

/// The end of the run of decimal digits starting at `i`.
pub open spec fn digits_end(line: Seq<u8>, i: int) -> int
    decreases line.len() - i,
{
    if i < 0 || i >= line.len() || !(48 <= line[i] <= 57) {
        i
    } else {
        digits_end(line, i + 1)
    }
}

/// The decimal-number parser at a position: the digit run's value,
/// when there is a run and the value fits a `usize`.
pub open spec fn digits_parse(line: Seq<u8>, pos: int) -> Option<(nat, int)> {
    let e = digits_end(line, pos);
    if e == pos {
        None
    } else if dec_val(line.subrange(pos, e)) > usize::MAX {
        None
    } else {
        Some((dec_val(line.subrange(pos, e)), e))
    }
}

/// The tail of a JSON string array: one string, then a comma and more
/// strings, or the closing bracket.
pub open spec fn jarr_tail(line: Seq<u8>, i: int, acc: Seq<Seq<u8>>) -> Option<(Seq<Seq<u8>>, int)>
    decreases line.len() - i,
{
    match jstr_parse(line, i) {
        None => None,
        Some((s, p)) => {
            if p <= i || p >= line.len() {
                None
            } else if line[p] == 44 {
                jarr_tail(line, p + 1, acc.push(s))
            } else if line[p] == 93 {
                Some((acc.push(s), p + 1))
            } else {
                None
            }
        },
    }
}

/// The tail of a JSON object of string pairs.
pub open spec fn jobj_tail(line: Seq<u8>, i: int, acc: Seq<(Seq<u8>, Seq<u8>)>) -> Option<
    (Seq<(Seq<u8>, Seq<u8>)>, int),
>
    decreases line.len() - i,
{
    match jstr_parse(line, i) {
        None => None,
        Some((name, p)) => {
            if p <= i || p >= line.len() || line[p] != 58 {
                None
            } else {
                match jstr_parse(line, p + 1) {
                    None => None,
                    Some((value, q)) => {
                        if q <= p || q >= line.len() {
                            None
                        } else if line[q] == 44 {
                            jobj_tail(line, q + 1, acc.push((name, value)))
                        } else if line[q] == 125 {
                            Some((acc.push((name, value)), q + 1))
                        } else {
                            None
                        }
                    },
                }
            }
        },
    }
}

/// The spill-line parser: the grammar the decoder accepts, before the
/// canonical re-encoding check.
pub open spec fn spill_parse(line: Seq<u8>) -> Option<RecV> {
    if !lit_at(line, 0, ascii_bytes("{\"key\":["@)) {
        None
    } else {
        let p0 = ascii_bytes("{\"key\":["@).len() as int;
        let key_step = if p0 < line.len() && line[p0] == 93 {
            Some((Seq::<Seq<u8>>::empty(), p0 + 1))
        } else {
            jarr_tail(line, p0, Seq::empty())
        };
        match key_step {
            None => None,
            Some((key, p1)) => {
                if !lit_at(line, p1, ascii_bytes(",\"row_index\":"@)) {
                    None
                } else {
                    let p2 = p1 + ascii_bytes(",\"row_index\":"@).len();
                    match digits_parse(line, p2 as int) {
                        None => None,
                        Some((row_index, p3)) => {
                            if !lit_at(line, p3, ascii_bytes(",\"row\":{"@)) {
                                None
                            } else {
                                let p4 = p3 + ascii_bytes(",\"row\":{"@).len();
                                let row_step = if p4 < line.len() && line[p4] == 125 {
                                    Some((Seq::<(Seq<u8>, Seq<u8>)>::empty(), p4 + 1))
                                } else {
                                    jobj_tail(line, p4 as int, Seq::empty())
                                };
                                match row_step {
                                    None => None,
                                    Some((row, p5)) => {
                                        if p5 < line.len() && line[p5] == 125 && p5 + 1
                                            == line.len() {
                                            Some(RecV { key, row_index, row })
                                        } else {
                                            None
                                        }
                                    },
                                }
                            }
                        },
                    }
                }
            }
        }
    }
}

/// What the decoder accepts: the parse, kept only when re-encoding it
/// reproduces the line exactly.
pub open spec fn spill_line_checked(line: Seq<u8>) -> Option<RecV> {
    match spill_parse(line) {
        Some(rv) => if spill_line(rv) == line {
            Some(rv)
        } else {
            None
        },
        None => None,
    }
}

fn expect_ascii(line: &Vec<u8>, pos: usize, lit: &str) -> (r: Option<usize>)
    requires
        pos <= line@.len(),
        lit.is_ascii(),
    ensures
        r == (if lit_at(line@, pos as int, ascii_bytes(lit@)) {
            Some((pos + lit@.len()) as usize)
        } else {
            None::<usize>
        }),
        r matches Some(p) ==> pos <= p <= line@.len(),
{
    proof {
        vstd::string::is_ascii_spec_bytes(lit);
    }
    let bytes = lit.as_bytes();
    let m = bytes.len();
    let n = line.len();
    if m > n - pos {
        return None;
    }
    let mut i: usize = 0;
    while i < m
        invariant
            i <= m,
            m == bytes@.len(),
            bytes@ == ascii_bytes(lit@),
            n == line@.len(),
            pos + m <= n,
            forall|j: int| 0 <= j < i ==> line@[pos + j] == bytes@[j],
        decreases m - i,
    {
        if line[pos + i] != bytes[i] {
            proof {
                assert(line@.subrange(pos as int, pos + m) != ascii_bytes(lit@)) by {
                    assert(line@.subrange(pos as int, pos + m)[i as int] == line@[pos + i]);
                }
            }
            return None;
        }
        i = i + 1;
    }
    proof {
        assert(line@.subrange(pos as int, pos + m) =~= ascii_bytes(lit@));
    }
    Some(pos + m)
}

fn hex_val(b: u8) -> (r: Option<u8>)
    ensures
        r == hex_val_s(b),
        r matches Some(v) ==> v < 16,
{
    if 48 <= b && b <= 57 {
        Some(b - 48)
    } else if 97 <= b && b <= 102 {
        Some(b - 87)
    } else {
        None
    }
}

fn parse_jstring(line: &Vec<u8>, pos: usize) -> (r: Option<(Vec<u8>, usize)>)
    requires
        pos <= line@.len(),
    ensures
        jstr_parse(line@, pos as int) == (match r {
            Some((s, p)) => Some((s@, p as int)),
            None => None::<(Seq<u8>, int)>,
        }),
        r matches Some(sp) ==> pos < sp.1 <= line@.len(),
{
    let n = line.len();
    if pos >= n || line[pos] != 34 {
        return None;
    }
    let mut s: Vec<u8> = Vec::new();
    let mut i: usize = pos + 1;
    proof {
        assert(s@ =~= Seq::<u8>::empty());
    }
    while i < n
        invariant
            pos < i <= n,
            n == line@.len(),
            jstr_parse(line@, pos as int) == jstr_body(line@, i as int, s@),
        decreases n - i,
    {
        let b = line[i];
        if b == 34 {
            return Some((s, i + 1));
        }
        if b == 92 {
            if i + 1 >= n {
                return None;
            }
            let e = line[i + 1];
            if e == 34 {
                s.push(34);
                i = i + 2;
            } else if e == 92 {
                s.push(92);
                i = i + 2;
            } else if e == 117 {
                if n - i <= 5 {
                    return None;
                }
                if line[i + 2] != 48 || line[i + 3] != 48 {
                    return None;
                }
                let hi = match hex_val(line[i + 4]) {
                    Some(v) => v,
                    None => {
                        return None;
                    },
                };
                let lo = match hex_val(line[i + 5]) {
                    Some(v) => v,
                    None => {
                        return None;
                    },
                };
                s.push(hi * 16 + lo);
                i = i + 6;
            } else {
                return None;
            }
        } else {
            s.push(b);
            i = i + 1;
        }
    }
    None
}

fn parse_digits(line: &Vec<u8>, pos: usize) -> (r: Option<(usize, usize)>)
    requires
        pos <= line@.len(),
    ensures
        digits_parse(line@, pos as int) == (match r {
            Some((v, p)) => Some((v as nat, p as int)),
            None => None::<(nat, int)>,
        }),
        r matches Some(vp) ==> pos < vp.1 <= line@.len(),
{
    let n = line.len();
    if pos >= n || line[pos] < 48 || line[pos] > 57 {
        return None;
    }
    let ghost end = digits_end(line@, pos as int);
    proof {
        lemma_digits_end_props(line@, pos as int);
    }
    let mut acc: usize = 0;
    let mut i: usize = pos;
    proof {
        assert(line@.subrange(pos as int, pos as int) =~= Seq::<u8>::empty());
    }
    while i < n && 48 <= line[i] && line[i] <= 57
        invariant
            pos <= i <= n,
            n == line@.len(),
            end == digits_end(line@, pos as int),
            digits_end(line@, i as int) == end,
            pos <= end <= n,
            forall|j: int| pos <= j < end ==> 48 <= #[trigger] line@[j] <= 57,
            end < n ==> !(48 <= line@[end] <= 57),
            i <= end,
            acc as nat == dec_val(line@.subrange(pos as int, i as int)),
        decreases n - i,
    {
        let d = (line[i] - 48) as usize;
        proof {
            assert(digits_end(line@, i as int) == digits_end(line@, i as int + 1));
            assert(i < end) by {
                if i as int == end {
                    assert(digits_end(line@, end) == end);
                }
            }
        }
        if acc > (usize::MAX - d) / 10 {
            proof {
                vstd::arithmetic::div_mod::lemma_fundamental_div_mod((usize::MAX - d) as int, 10);
                assert(acc as nat * 10 + d > usize::MAX) by (nonlinear_arith)
                    requires
                        acc as nat > ((usize::MAX - d) as int / 10),
                        (usize::MAX - d) as int == 10 * ((usize::MAX - d) as int / 10) + ((
                        usize::MAX - d) as int % 10),
                        0 <= (usize::MAX - d) as int % 10 < 10,
                        0 <= d <= 9,
                ;
                let run = line@.subrange(pos as int, end);
                assert(line@.subrange(pos as int, i as int + 1).drop_last() =~= line@.subrange(
                    pos as int,
                    i as int,
                ));
                assert(line@.subrange(pos as int, i as int + 1).last() == line@[i as int]);
                assert(dec_val(line@.subrange(pos as int, i as int + 1)) > usize::MAX);
                assert(run.take(i as int + 1 - pos) =~= line@.subrange(pos as int, i as int + 1));
                crate::options::lemma_dec_val_take_mono(run, i as int + 1 - pos);
                assert(dec_val(run) > usize::MAX);
            }
            return None;
        }
        proof {
            vstd::arithmetic::div_mod::lemma_fundamental_div_mod((usize::MAX - d) as int, 10);
            assert(acc as nat * 10 + d <= usize::MAX) by (nonlinear_arith)
                requires
                    acc as nat <= ((usize::MAX - d) as int / 10),
                    (usize::MAX - d) as int == 10 * ((usize::MAX - d) as int / 10) + ((usize::MAX
                        - d) as int % 10),
                    0 <= (usize::MAX - d) as int % 10 < 10,
                    0 <= d <= 9,
            ;
        }
        acc = acc * 10 + d;
        proof {
            assert(line@.subrange(pos as int, i as int + 1).drop_last() =~= line@.subrange(
                pos as int,
                i as int,
            ));
            assert(line@.subrange(pos as int, i as int + 1).last() == line@[i as int]);
        }
        i = i + 1;
    }
    proof {
        assert(i as int == end) by {
            if (i as int) < end {
                assert(48 <= line@[i as int] <= 57);
            } else {
                assert(digits_end(line@, i as int) == i as int);
            }
        }
    }
    Some((acc, i))
}

proof fn lemma_digits_end_props(line: Seq<u8>, i: int)
    requires
        0 <= i <= line.len(),
    ensures
        i <= digits_end(line, i) <= line.len(),
        forall|j: int| i <= j < digits_end(line, i) ==> 48 <= #[trigger] line[j] <= 57,
        digits_end(line, i) < line.len() ==> !(48 <= line[digits_end(line, i)] <= 57),
    decreases line.len() - i,
{
    if i < line.len() && 48 <= line[i] <= 57 {
        lemma_digits_end_props(line, i + 1);
    }
}

fn parse_spill_line_inner(line: &Vec<u8>) -> (r: Option<SpillRecord>)
    ensures
        spill_parse(line@) == (match r {
            Some(rec) => Some(rec_view(rec)),
            None => None::<RecV>,
        }),
{
    proof {
        reveal_strlit("{\"key\":[");
        reveal_strlit(",\"row_index\":");
        reveal_strlit(",\"row\":{");
    }
    let n = line.len();
    let ghost lit0 = ascii_bytes("{\"key\":["@);
    let pos0: usize = match expect_ascii(line, 0, "{\"key\":[") {
        Some(p) => p,
        None => {
            proof {
                assert(spill_parse(line@) is None);
            }
            return None;
        },
    };
    let ghost p0 = pos0 as int;
    proof {
        assert(p0 == lit0.len());
        assert(lit_at(line@, 0, lit0));
    }
    let mut key: Vec<Vec<u8>> = Vec::new();
    let mut pos: usize = pos0;
    if pos < n && line[pos] == 93 {
        pos = pos + 1;
        proof {
            assert(key.deep_view() =~= Seq::<Seq<u8>>::empty());
        }
    } else {
        proof {
            assert(key.deep_view() =~= Seq::<Seq<u8>>::empty());
        }
        let mut closed = false;
        while !closed
            invariant
                pos <= n,
                n == line@.len(),
                p0 == lit0.len(),
                lit0 == ascii_bytes("{\"key\":["@),
                lit_at(line@, 0, lit0),
                !(p0 < line@.len() && line@[p0] == 93),
                !closed ==> jarr_tail(line@, p0, Seq::empty()) == jarr_tail(
                    line@,
                    pos as int,
                    key.deep_view(),
                ),
                closed ==> jarr_tail(line@, p0, Seq::empty()) == Some(
                    (key.deep_view(), pos as int),
                ),
            decreases n - pos,
        {
            let ghost key_dv = key.deep_view();
            let (part, p2) = match parse_jstring(line, pos) {
                Some(sp) => sp,
                None => {
                    proof {
                        assert(jarr_tail(line@, pos as int, key_dv) is None);
                        assert(spill_parse(line@) is None);
                    }
                    return None;
                },
            };
            key.push(part);
            proof {
                assert(part@ =~= part.deep_view());
                assert(key.deep_view() =~= key_dv.push(part@));
            }
            pos = p2;
            if pos < n && line[pos] == 44 {
                pos = pos + 1;
            } else if pos < n && line[pos] == 93 {
                pos = pos + 1;
                closed = true;
            } else {
                proof {
                    assert(jarr_tail(line@, p0, Seq::empty()) is None);
                    assert(spill_parse(line@) is None);
                }
                return None;
            }
        }
    }
    let ghost key_done = key.deep_view();
    let ghost p1 = pos as int;
    let ghost key_step = if p0 < line@.len() && line@[p0] == 93 {
        Some((Seq::<Seq<u8>>::empty(), p0 + 1))
    } else {
        jarr_tail(line@, p0, Seq::<Seq<u8>>::empty())
    };
    proof {
        assert(key_step == Some((key_done, p1)));
    }
    let ghost lit1 = ascii_bytes(",\"row_index\":"@);
    pos = match expect_ascii(line, pos, ",\"row_index\":") {
        Some(p) => p,
        None => {
            proof {
                assert(!lit_at(line@, p1, lit1));
                assert(spill_parse(line@) is None);
            }
            return None;
        },
    };
    let ghost p2 = pos as int;
    let (row_index, pos_after_digits) = match parse_digits(line, pos) {
        Some(x) => x,
        None => {
            proof {
                assert(digits_parse(line@, p2) is None);
                assert(spill_parse(line@) is None);
            }
            return None;
        },
    };
    pos = pos_after_digits;
    let ghost p3 = pos as int;
    let ghost lit2 = ascii_bytes(",\"row\":{"@);
    pos = match expect_ascii(line, pos, ",\"row\":{") {
        Some(p) => p,
        None => {
            proof {
                assert(!lit_at(line@, p3, lit2));
                assert(spill_parse(line@) is None);
            }
            return None;
        },
    };
    let ghost p4 = pos as int;
    let mut row: Vec<(Vec<u8>, Vec<u8>)> = Vec::new();
    if pos < n && line[pos] == 125 {
        pos = pos + 1;
        proof {
            assert(pairs_view(row@) =~= Seq::<(Seq<u8>, Seq<u8>)>::empty());
        }
    } else {
        proof {
            assert(pairs_view(row@) =~= Seq::<(Seq<u8>, Seq<u8>)>::empty());
        }
        let mut closed = false;
        while !closed
            invariant
                pos <= n,
                n == line@.len(),
                lit0 == ascii_bytes("{\"key\":["@),
                lit_at(line@, 0, lit0),
                p0 == lit0.len(),
                (if p0 < line@.len() && line@[p0] == 93 {
                    Some((Seq::<Seq<u8>>::empty(), p0 + 1))
                } else {
                    jarr_tail(line@, p0, Seq::<Seq<u8>>::empty())
                }) == Some((key_done, p1)),
                lit1 == ascii_bytes(",\"row_index\":"@),
                lit_at(line@, p1, lit1),
                p2 == p1 + lit1.len(),
                digits_parse(line@, p2) == Some((row_index as nat, p3)),
                lit2 == ascii_bytes(",\"row\":{"@),
                lit_at(line@, p3, lit2),
                p4 == p3 + lit2.len(),
                !(p4 < line@.len() && line@[p4] == 125),
                !closed ==> jobj_tail(line@, p4, Seq::empty()) == jobj_tail(
                    line@,
                    pos as int,
                    pairs_view(row@),
                ),
                closed ==> jobj_tail(line@, p4, Seq::empty()) == Some(
                    (pairs_view(row@), pos as int),
                ),
            decreases n - pos,
        {
            let ghost row_pv = pairs_view(row@);
            let (name, pn) = match parse_jstring(line, pos) {
                Some(sp) => sp,
                None => {
                    proof {
                        assert(jobj_tail(line@, p4, Seq::empty()) is None);
                        assert(spill_parse(line@) is None);
                    }
                    return None;
                },
            };
            pos = pn;
            if pos >= n || line[pos] != 58 {
                proof {
                    assert(jobj_tail(line@, p4, Seq::empty()) is None);
                    assert(spill_parse(line@) is None);
                }
                return None;
            }
            pos = pos + 1;
            let (value, pv) = match parse_jstring(line, pos) {
                Some(sp) => sp,
                None => {
                    proof {
                        assert(jobj_tail(line@, p4, Seq::empty()) is None);
                        assert(spill_parse(line@) is None);
                    }
                    return None;
                },
            };
            pos = pv;
            row.push((name, value));
            proof {
                assert(pairs_view(row@) =~= row_pv.push((name@, value@)));
            }
            if pos < n && line[pos] == 44 {
                pos = pos + 1;
            } else if pos < n && line[pos] == 125 {
                pos = pos + 1;
                closed = true;
            } else {
                proof {
                    assert(jobj_tail(line@, p4, Seq::empty()) is None);
                    assert(spill_parse(line@) is None);
                }
                return None;
            }
        }
    }
    let ghost row_done = pairs_view(row@);
    let ghost p5 = pos as int;
    let ghost row_step = if p4 < line@.len() && line@[p4] == 125 {
        Some((Seq::<(Seq<u8>, Seq<u8>)>::empty(), p4 + 1))
    } else {
        jobj_tail(line@, p4, Seq::<(Seq<u8>, Seq<u8>)>::empty())
    };
    proof {
        assert(row_step == Some((row_done, p5)));
    }
    if pos < n && line[pos] == 125 && pos + 1 == n {
        let rec = SpillRecord { key, row_index, row };
        proof {
            assert(rec_view(rec) == RecV {
                key: key_done,
                row_index: row_index as nat,
                row: row_done,
            });
            assert(spill_parse(line@) == Some(rec_view(rec)));
        }
        Some(rec)
    } else {
        proof {
            assert(spill_parse(line@) is None);
        }
        None
    }
}

/// Decodes one spill line.  Only a canonical line is accepted: the
/// parsed record is re-encoded and must reproduce the input exactly,
/// so whatever comes back encodes to the given bytes, and a canonical
/// line always comes back.
pub fn parse_spill_line(line: &Vec<u8>) -> (r: Option<SpillRecord>)
    ensures
        spill_line_checked(line@) == (match r {
            Some(rec) => Some(rec_view(rec)),
            None => None::<RecV>,
        }),
        r matches Some(rec) ==> line@ == spill_line(rec_view(rec)),
        forall|rv: RecV|
            rv.row_index <= usize::MAX && line@ == spill_line(rv) ==> r is Some,
{
    let parsed = match parse_spill_line_inner(line) {
        Some(rec) => rec,
        None => {
            proof {
                assert forall|rv: RecV|
                    rv.row_index <= usize::MAX && line@ == spill_line(rv) implies false by {
                    lemma_spill_parse_complete(rv);
                }
            }
            return None;
        },
    };
    let enc = encode_spill_record(&parsed);
    if bytes_eq(&enc, line) {
        Some(parsed)
    } else {
        proof {
            assert forall|rv: RecV|
                rv.row_index <= usize::MAX && line@ == spill_line(rv) implies false by {
                lemma_spill_parse_complete(rv);
            }
        }
        None
    }
}

/// The canonical content of a spill file: each record's line,
/// newline-terminated.
pub open spec fn join_lines(recs: Seq<RecV>) -> Seq<u8>
    decreases recs.len(),
{
    if recs.len() == 0 {
        Seq::empty()
    } else {
        join_lines(recs.drop_last()) + spill_line(recs.last()) + seq![10u8]
    }
}

/// Decodes a whole spill file.  Only canonical content is accepted:
/// every line must be a canonical record line with a trailing newline,
/// so an accepted file is exactly the join of its records' encodings.
#[verifier::rlimit(100)]
#[verifier::spinoff_prover]
pub fn parse_spill_content(content: &Vec<u8>) -> (r: Option<Vec<SpillRecord>>)
    ensures
        r matches Some(recs) ==> content@ == join_lines(recs_view(recs@)),
        forall|rvs: Seq<RecV>|
            rows_fit(rvs) && content@ == #[trigger] join_lines(rvs) ==> r is Some,
{
    let n = content.len();
    let mut recs: Vec<SpillRecord> = Vec::new();
    let mut pos: usize = 0;
    proof {
        assert(content@.take(0) =~= Seq::<u8>::empty());
        assert(recs_view(recs@) =~= Seq::<RecV>::empty());
        assert(content@.take(0) =~= join_lines(recs_view(recs@)));
        assert forall|rvs: Seq<RecV>|
            rows_fit(rvs) && content@ == #[trigger] join_lines(rvs) implies recs@.len()
            <= rvs.len() && content@.skip(0) == join_lines(rvs.skip(recs@.len() as int)) by {
            assert(content@.skip(0) =~= content@);
            assert(rvs.skip(0) =~= rvs);
        }
    }
    while pos < n
        invariant
            pos <= n,
            n == content@.len(),
            content@.take(pos as int) == join_lines(recs_view(recs@)),
            forall|rvs: Seq<RecV>|
                rows_fit(rvs) && content@ == #[trigger] join_lines(rvs) ==> recs@.len()
                    <= rvs.len() && content@.skip(pos as int) == join_lines(
                    rvs.skip(recs@.len() as int),
                ),
        decreases n - pos,
    {
        // find the next newline
        let mut end: usize = pos;
        while end < n && content[end] != 10
            invariant
                pos <= end <= n,
                n == content@.len(),
                forall|k: int| pos <= k < end ==> content@[k] != 10,
            decreases n - end,
        {
            end = end + 1;
        }
        proof {
            // under a canonical reading, the newline scan ends exactly
            // at the first record line's end
            assert forall|rvs: Seq<RecV>|
                rows_fit(rvs) && content@ == #[trigger] join_lines(rvs) implies {
                let rest = rvs.skip(recs@.len() as int);
                &&& rest.len() > 0
                &&& rest[0].row_index <= usize::MAX
                &&& end < n
                &&& end as int == pos + spill_line(rest[0]).len()
                &&& content@.subrange(pos as int, end as int) == spill_line(rest[0])
                &&& content@.skip(end as int + 1) == join_lines(rest.skip(1))
            } by {
                let done = recs@.len() as int;
                lemma_canonical_line_at(content@, pos as int, done, rvs);
                let rest = rvs.skip(done);
                let line0 = spill_line(rest[0]);
                let e0 = pos + line0.len();
                assert(end as int == e0) by {
                    if (end as int) < e0 {
                        assert(content@[end as int] != 10);
                        assert(end < n);
                    }
                    if (end as int) > e0 {
                        assert(content@[e0] != 10);
                    }
                }
            }
        }
        if end >= n {
            // the final line is not newline-terminated
            return None;
        }
        let mut line: Vec<u8> = Vec::new();
        let mut k: usize = pos;
        proof {
            assert(line@ =~= content@.subrange(pos as int, pos as int));
        }
        while k < end
            invariant
                pos <= k <= end <= n,
                n == content@.len(),
                line@ == content@.subrange(pos as int, k as int),
            decreases end - k,
        {
            let b = content[k];
            line.push(b);
            proof {
                assert(line@ =~= content@.subrange(pos as int, k as int + 1));
            }
            k = k + 1;
        }
        let rec = match parse_spill_line(&line) {
            Some(rec) => rec,
            None => {
                proof {
                    assert forall|rvs: Seq<RecV>|
                        rows_fit(rvs) && content@ == #[trigger] join_lines(rvs) implies false by {
                        let rest = rvs.skip(recs@.len() as int);
                        assert(line@ == spill_line(rest[0]));
                        assert(rest[0] == rvs[recs@.len() as int]);
                        assert(rest[0].row_index <= usize::MAX);
                    }
                }
                return None;
            },
        };
        let ghost recs_pre = recs_view(recs@);
        recs.push(rec);
        proof {
            assert(recs_view(recs@) =~= recs_pre.push(rec_view(rec)));
            assert(recs_view(recs@).drop_last() =~= recs_pre);
            assert(recs_view(recs@).last() == rec_view(rec));
            assert(content@.take(end as int + 1) =~= content@.take(pos as int) + content@.subrange(
                pos as int,
                end as int,
            ) + seq![10u8]);
            assert(content@.take(end as int + 1) =~= join_lines(recs_view(recs@)));
            assert forall|rvs: Seq<RecV>|
                rows_fit(rvs) && content@ == #[trigger] join_lines(rvs) implies recs@.len()
                <= rvs.len() && content@.skip(end as int + 1) == join_lines(
                rvs.skip(recs@.len() as int),
            ) by {
                let done = recs_pre.len() as int;
                let rest = rvs.skip(done);
                assert(rest.len() > 0);
                assert(rvs.skip(done + 1) =~= rest.skip(1));
            }
        }
        pos = end + 1;
    }
    proof {
        assert(content@.take(n as int) =~= content@);
    }
    Some(recs)
}

/// Under a canonical reading of the rest of the content, the next
/// record line sits at the cursor, newline-terminated, and the
/// content after it reads as the remaining records.
proof fn lemma_canonical_line_at(content: Seq<u8>, pos: int, done: int, rvs: Seq<RecV>)
    requires
        rows_fit(rvs),
        content == join_lines(rvs),
        0 <= done <= rvs.len(),
        0 <= pos < content.len(),
        content.skip(pos) == join_lines(rvs.skip(done)),
    ensures
        ({
            let rest = rvs.skip(done);
            let line0 = spill_line(rest[0]);
            &&& rest.len() > 0
            &&& rest[0].row_index <= usize::MAX
            &&& pos + line0.len() < content.len()
            &&& content[pos + line0.len()] == 10
            &&& forall|k: int| pos <= k < pos + line0.len() ==> #[trigger] content[k] != 10
            &&& content.subrange(pos, pos + line0.len()) == line0
            &&& content.skip(pos + line0.len() + 1) == join_lines(rest.skip(1))
        }),
{
    let rest = rvs.skip(done);
    if rest.len() == 0 {
        assert(join_lines(rest) =~= Seq::<u8>::empty());
        assert(content.skip(pos).len() == 0);
    }
    assert(rest[0] == rvs[done]);
    lemma_join_front(rest);
    lemma_spill_line_no_nl(rest[0]);
    let line0 = spill_line(rest[0]);
    let e0 = pos + line0.len();
    assert(content.skip(pos).len() == join_lines(rest).len());
    assert(content[e0] == 10) by {
        assert(content.skip(pos)[line0.len() as int] == content[e0]);
        assert(join_lines(rest)[line0.len() as int] == 10);
    }
    assert forall|k: int| pos <= k < e0 implies #[trigger] content[k] != 10 by {
        assert(content.skip(pos)[k - pos] == content[k]);
        assert(join_lines(rest)[k - pos] == line0[k - pos]);
        assert(line0[k - pos] != 10);
    }
    assert(content.subrange(pos, e0) =~= line0) by {
        assert forall|j: int| 0 <= j < line0.len() implies content.subrange(
            pos,
            e0,
        )[j] == line0[j] by {
            assert(content.subrange(pos, e0)[j] == content[pos + j]);
            assert(content.skip(pos)[j] == content[pos + j]);
            assert(join_lines(rest)[j] == line0[j]);
        }
    }
    assert(content.skip(e0 + 1) =~= join_lines(rest.skip(1))) by {
        assert forall|j: int|
            0 <= j < join_lines(rest.skip(1)).len() implies content.skip(e0 + 1)[j] == join_lines(
            rest.skip(1),
        )[j] by {
            assert(content.skip(e0 + 1)[j] == content[e0 + 1 + j]);
            assert(content.skip(pos)[line0.len() + 1 + j] == content[e0 + 1 + j]);
            assert(join_lines(rest)[line0.len() + 1 + j] == join_lines(rest.skip(1))[j]);
        }
        assert(content.skip(e0 + 1).len() == join_lines(rest.skip(1)).len());
    }
}

/// Whether a byte sequence holds no newline.
pub open spec fn no_nl(s: Seq<u8>) -> bool {
    forall|j: int| 0 <= j < s.len() ==> #[trigger] s[j] != 10
}

proof fn lemma_esc_no_nl(s: Seq<u8>)
    ensures
        no_nl(esc(s)),
    decreases s.len(),
{
    if s.len() > 0 {
        lemma_esc_no_nl(s.drop_last());
        assert forall|j: int| 0 <= j < esc(s).len() implies #[trigger] esc(s)[j] != 10 by {
            if j < esc(s.drop_last()).len() {
                assert(esc(s)[j] == esc(s.drop_last())[j]);
            } else {
                let b = s.last();
                assert(esc(s)[j] == esc_byte(b)[j - esc(s.drop_last()).len()]);
                if b < 32 && b != 34 && b != 92 {
                    assert(hex_digit(b / 16) != 10 && hex_digit(b % 16) != 10);
                }
            }
        }
    }
}

proof fn lemma_jstr_no_nl(s: Seq<u8>)
    ensures
        no_nl(jstr(s)),
{
    lemma_esc_no_nl(s);
    assert forall|j: int| 0 <= j < jstr(s).len() implies #[trigger] jstr(s)[j] != 10 by {
        if 0 < j < 1 + esc(s).len() {
            assert(jstr(s)[j] == esc(s)[j - 1]);
        }
    }
}

proof fn lemma_jarr_no_nl(parts: Seq<Seq<u8>>)
    ensures
        no_nl(jarr_items(parts)),
    decreases parts.len(),
{
    if parts.len() > 0 {
        lemma_jarr_no_nl(parts.drop_last());
        lemma_jstr_no_nl(parts.last());
        let pre = jarr_items(parts.drop_last()) + (if parts.len() > 1 {
            seq![44u8]
        } else {
            Seq::<u8>::empty()
        });
        assert forall|j: int| 0 <= j < jarr_items(parts).len() implies #[trigger] jarr_items(
            parts,
        )[j] != 10 by {
            if j < pre.len() {
                if j < jarr_items(parts.drop_last()).len() {
                    assert(jarr_items(parts)[j] == jarr_items(parts.drop_last())[j]);
                } else {
                    assert(jarr_items(parts)[j] == 44);
                }
            } else {
                assert(jarr_items(parts)[j] == jstr(parts.last())[j - pre.len()]);
            }
        }
    }
}

proof fn lemma_jobj_no_nl(pairs: Seq<(Seq<u8>, Seq<u8>)>)
    ensures
        no_nl(jobj_items(pairs)),
    decreases pairs.len(),
{
    if pairs.len() > 0 {
        lemma_jobj_no_nl(pairs.drop_last());
        lemma_jstr_no_nl(pairs.last().0);
        lemma_jstr_no_nl(pairs.last().1);
        let pre = jobj_items(pairs.drop_last()) + (if pairs.len() > 1 {
            seq![44u8]
        } else {
            Seq::<u8>::empty()
        });
        let name = jstr(pairs.last().0);
        assert forall|j: int| 0 <= j < jobj_items(pairs).len() implies #[trigger] jobj_items(
            pairs,
        )[j] != 10 by {
            if j < pre.len() {
                if j < jobj_items(pairs.drop_last()).len() {
                    assert(jobj_items(pairs)[j] == jobj_items(pairs.drop_last())[j]);
                } else {
                    assert(jobj_items(pairs)[j] == 44);
                }
            } else if j < pre.len() + name.len() {
                assert(jobj_items(pairs)[j] == name[j - pre.len()]);
            } else if j == pre.len() + name.len() {
                assert(jobj_items(pairs)[j] == 58);
            } else {
                assert(jobj_items(pairs)[j] == jstr(pairs.last().1)[j - pre.len() - name.len()
                    - 1]);
            }
        }
    }
}

proof fn lemma_dec_bytes_no_nl(n: nat)
    ensures
        no_nl(dec_bytes(n)),
{
    lemma_dec_bytes_digits(n);
    assert forall|j: int| 0 <= j < dec_bytes(n).len() implies #[trigger] dec_bytes(n)[j] != 10 by {
        assert(48 <= dec_bytes(n)[j] <= 57);
    }
}

/// A spill line never holds a newline: every byte below 32 inside a
/// string is escaped, and every structural byte is printable.
proof fn lemma_spill_line_no_nl(rv: RecV)
    ensures
        no_nl(spill_line(rv)),
{
    reveal_strlit("{\"key\":");
    reveal_strlit(",\"row_index\":");
    reveal_strlit(",\"row\":");
    let a7 = ascii_bytes("{\"key\":"@);
    let b13 = ascii_bytes(",\"row_index\":"@);
    let c7 = ascii_bytes(",\"row\":"@);
    lemma_jarr_no_nl(rv.key);
    lemma_jobj_no_nl(rv.row);
    lemma_dec_bytes_no_nl(rv.row_index);
    let line = spill_line(rv);
    assert forall|j: int| 0 <= j < line.len() implies #[trigger] line[j] != 10 by {
        let ka = jarr(rv.key);
        let dn = dec_bytes(rv.row_index);
        let ro = jobj(rv.row);
        let o1 = a7.len() as int;
        let o2 = o1 + ka.len();
        let o3 = o2 + b13.len();
        let o4 = o3 + dn.len();
        let o5 = o4 + c7.len();
        let o6 = o5 + ro.len();
        if j < o1 {
            assert(line[j] == a7[j]);
        } else if j < o2 {
            assert(line[j] == ka[j - o1]);
            if 0 < j - o1 < ka.len() - 1 {
                assert(ka[j - o1] == jarr_items(rv.key)[j - o1 - 1]);
            }
        } else if j < o3 {
            assert(line[j] == b13[j - o2]);
        } else if j < o4 {
            assert(line[j] == dn[j - o3]);
        } else if j < o5 {
            assert(line[j] == c7[j - o4]);
        } else if j < o6 {
            assert(line[j] == ro[j - o5]);
            if 0 < j - o5 < ro.len() - 1 {
                assert(ro[j - o5] == jobj_items(rv.row)[j - o5 - 1]);
            }
        } else {
            assert(line[j] == 125);
        }
    }
}

/// A non-empty record list joins head first.
proof fn lemma_join_front(rvs: Seq<RecV>)
    requires
        rvs.len() > 0,
    ensures
        join_lines(rvs) == spill_line(rvs[0]) + seq![10u8] + join_lines(rvs.skip(1)),
    decreases rvs.len(),
{
    if rvs.len() == 1 {
        assert(rvs.drop_last() =~= Seq::<RecV>::empty());
        assert(join_lines(rvs.drop_last()) =~= Seq::<u8>::empty());
        assert(rvs.skip(1) =~= Seq::<RecV>::empty());
        assert(join_lines(rvs.skip(1)) =~= Seq::<u8>::empty());
        assert(rvs.last() == rvs[0]);
        assert(join_lines(rvs) =~= spill_line(rvs[0]) + seq![10u8] + join_lines(rvs.skip(1)));
    } else {
        lemma_join_front(rvs.drop_last());
        assert(rvs.drop_last()[0] == rvs[0]);
        assert(rvs.drop_last().skip(1) =~= rvs.skip(1).drop_last());
        assert(rvs.skip(1).last() == rvs.last());
        assert(join_lines(rvs) == join_lines(rvs.drop_last()) + spill_line(rvs.last()) + seq![
            10u8,
        ]);
        assert(join_lines(rvs.skip(1)) == join_lines(rvs.skip(1).drop_last()) + spill_line(
            rvs.skip(1).last(),
        ) + seq![10u8]);
        assert(join_lines(rvs) =~= spill_line(rvs[0]) + seq![10u8] + join_lines(rvs.skip(1)));
    }
}

/// Whether every record's row index fits a `usize`; the library only
/// ever writes such records.
pub open spec fn rows_fit(rvs: Seq<RecV>) -> bool {
    forall|i: int| 0 <= i < rvs.len() ==> (#[trigger] rvs[i]).row_index <= usize::MAX
}

// ---- completeness of the decoder over canonical encodings ----

proof fn lemma_esc_head(s: Seq<u8>)
    requires
        s.len() > 0,
    ensures
        esc(s) == esc_byte(s[0]) + esc(s.skip(1)),
    decreases s.len(),
{
    if s.len() == 1 {
        assert(s.drop_last() =~= Seq::<u8>::empty());
        assert(esc(s.drop_last()) =~= Seq::<u8>::empty());
        assert(s.skip(1) =~= Seq::<u8>::empty());
        assert(esc(s.skip(1)) =~= Seq::<u8>::empty());
        assert(s.last() == s[0]);
        assert(esc(s) =~= esc_byte(s[0]) + esc(s.skip(1)));
    } else {
        lemma_esc_head(s.drop_last());
        assert(s.drop_last()[0] == s[0]);
        assert(s.drop_last().skip(1) =~= s.skip(1).drop_last());
        assert(s.skip(1).last() == s.last());
        assert(esc(s) == esc(s.drop_last()) + esc_byte(s.last()));
        assert(esc(s.skip(1)) == esc(s.skip(1).drop_last()) + esc_byte(s.skip(1).last()));
        assert(esc(s) =~= esc_byte(s[0]) + esc(s.skip(1)));
    }
}

proof fn lemma_hex_roundtrip(v: u8)
    requires
        v < 16,
    ensures
        hex_val_s(hex_digit(v)) == Some(v),
{
}

proof fn lemma_jstr_body_complete(line: Seq<u8>, i: int, s: Seq<u8>, acc: Seq<u8>)
    requires
        0 <= i,
        i + esc(s).len() < line.len(),
        line.subrange(i, i + esc(s).len()) == esc(s),
        line[i + esc(s).len()] == 34,
    ensures
        jstr_body(line, i, acc) == Some((acc + s, i + esc(s).len() + 1)),
    decreases s.len(),
{
    if s.len() == 0 {
        assert(esc(s).len() == 0);
        assert(line[i] == 34);
        assert(acc + s =~= acc);
        assert(jstr_body(line, i, acc) == Some((acc + s, i + esc(s).len() + 1)));
    } else {
        let b = s[0];
        lemma_esc_head(s);
        let eb = esc_byte(b);
        let rest = esc(s.skip(1));
        assert(esc(s).len() == eb.len() + rest.len());
        assert forall|j: int| 0 <= j < eb.len() implies line[i + j] == eb[j] by {
            assert(line.subrange(i, i + esc(s).len())[j] == line[i + j]);
            assert(esc(s)[j] == eb[j]);
        }
        let i2 = i + eb.len();
        assert(line.subrange(i2, i2 + rest.len()) =~= rest) by {
            assert forall|j: int| 0 <= j < rest.len() implies line.subrange(
                i2,
                i2 + rest.len(),
            )[j] == rest[j] by {
                assert(line.subrange(i2, i2 + rest.len())[j] == line[i2 + j]);
                assert(line.subrange(i, i + esc(s).len())[eb.len() + j] == line[i2 + j]);
                assert(esc(s)[eb.len() + j] == rest[j]);
            }
        }
        assert(line[i2 + rest.len()] == 34);
        if b == 34 {
            assert(line[i] == 92 && line[i + 1] == 34);
            lemma_jstr_body_complete(line, i + 2, s.skip(1), acc.push(34));
            assert(acc.push(b) + s.skip(1) =~= acc + s);
        } else if b == 92 {
            assert(line[i] == 92 && line[i + 1] == 92);
            lemma_jstr_body_complete(line, i + 2, s.skip(1), acc.push(92));
            assert(acc.push(b) + s.skip(1) =~= acc + s);
        } else if b < 32 {
            assert(line[i] == 92 && line[i + 1] == 117 && line[i + 2] == 48 && line[i + 3] == 48);
            assert(line[i + 4] == hex_digit(b / 16) && line[i + 5] == hex_digit(b % 16));
            lemma_hex_roundtrip(b / 16);
            lemma_hex_roundtrip(b % 16);
            vstd::arithmetic::div_mod::lemma_fundamental_div_mod(b as int, 16);
            assert((b / 16 * 16 + b % 16) as u8 == b);
            assert(eb.len() == 6);
            assert(esc(s).len() >= 6);
            assert(line.len() - i > 5);
            lemma_jstr_body_complete(line, i + 6, s.skip(1), acc.push(b));
            assert(acc.push(b) + s.skip(1) =~= acc + s);
        } else {
            assert(line[i + 0] == eb[0]);
            assert(line[i] == b);
            assert(b != 34 && b != 92);
            lemma_jstr_body_complete(line, i + 1, s.skip(1), acc.push(b));
            assert(acc.push(b) + s.skip(1) =~= acc + s);
        }
    }
}

proof fn lemma_jstr_parse_complete(line: Seq<u8>, i: int, s: Seq<u8>)
    requires
        0 <= i,
        i + jstr(s).len() <= line.len(),
        line.subrange(i, i + jstr(s).len()) == jstr(s),
    ensures
        jstr_parse(line, i) == Some((s, i + jstr(s).len())),
{
    assert(jstr(s).len() == esc(s).len() + 2);
    assert(line[i] == 34) by {
        assert(line.subrange(i, i + jstr(s).len())[0] == line[i]);
        assert(jstr(s)[0] == 34);
    }
    assert(line.subrange(i + 1, i + 1 + esc(s).len()) =~= esc(s)) by {
        assert forall|j: int| 0 <= j < esc(s).len() implies line.subrange(
            i + 1,
            i + 1 + esc(s).len(),
        )[j] == esc(s)[j] by {
            assert(line.subrange(i + 1, i + 1 + esc(s).len())[j] == line[i + 1 + j]);
            assert(line.subrange(i, i + jstr(s).len())[1 + j] == line[i + 1 + j]);
            assert(jstr(s)[1 + j] == esc(s)[j]);
        }
    }
    assert(line[i + 1 + esc(s).len()] == 34) by {
        assert(line.subrange(i, i + jstr(s).len())[jstr(s).len() - 1] == line[i + jstr(s).len()
            - 1]);
        assert(jstr(s)[jstr(s).len() - 1] == 34);
    }
    lemma_jstr_body_complete(line, i + 1, s, Seq::empty());
    assert(Seq::<u8>::empty() + s =~= s);
}

proof fn lemma_dec_bytes_digits(n: nat)
    ensures
        forall|j: int| 0 <= j < dec_bytes(n).len() ==> 48 <= #[trigger] dec_bytes(n)[j] <= 57,
        dec_bytes(n).len() > 0,
    decreases n,
{
    if n >= 10 {
        lemma_dec_bytes_digits(n / 10);
        assert forall|j: int| 0 <= j < dec_bytes(n).len() implies 48 <= #[trigger] dec_bytes(
            n,
        )[j] <= 57 by {
            if j < dec_bytes(n / 10).len() {
                assert(dec_bytes(n)[j] == dec_bytes(n / 10)[j]);
            } else {
                assert(dec_bytes(n)[j] == (48 + n % 10) as u8);
            }
        }
    }
}

proof fn lemma_dec_val_dec_bytes(n: nat)
    ensures
        dec_val(dec_bytes(n)) == n,
    decreases n,
{
    if n < 10 {
        assert(dec_bytes(n).drop_last() =~= Seq::<u8>::empty());
        assert(dec_val(Seq::<u8>::empty()) == 0);
        assert(dec_val(dec_bytes(n)) == digit_val((48 + n) as u8));
    } else {
        lemma_dec_val_dec_bytes(n / 10);
        assert(dec_bytes(n).drop_last() =~= dec_bytes(n / 10));
        assert(dec_bytes(n).last() == (48 + n % 10) as u8);
        assert(digit_val((48 + n % 10) as u8) == n % 10);
        vstd::arithmetic::div_mod::lemma_fundamental_div_mod(n as int, 10);
    }
}

proof fn lemma_digits_end_is(line: Seq<u8>, i: int, e: int)
    requires
        0 <= i <= e <= line.len(),
        forall|j: int| i <= j < e ==> 48 <= #[trigger] line[j] <= 57,
        e == line.len() || !(48 <= line[e] <= 57),
    ensures
        digits_end(line, i) == e,
    decreases e - i,
{
    if i < e {
        lemma_digits_end_is(line, i + 1, e);
    }
}

proof fn lemma_digits_parse_complete(line: Seq<u8>, i: int, n: nat)
    requires
        0 <= i,
        i + dec_bytes(n).len() <= line.len(),
        line.subrange(i, i + dec_bytes(n).len()) == dec_bytes(n),
        i + dec_bytes(n).len() == line.len() || !(48 <= line[i + dec_bytes(n).len()] <= 57),
        n <= usize::MAX,
    ensures
        digits_parse(line, i) == Some((n, i + dec_bytes(n).len())),
{
    let e = i + dec_bytes(n).len();
    lemma_dec_bytes_digits(n);
    assert forall|j: int| i <= j < e implies 48 <= #[trigger] line[j] <= 57 by {
        assert(line.subrange(i, e)[j - i] == line[j]);
        assert(dec_bytes(n)[j - i] == line[j]);
    }
    lemma_digits_end_is(line, i, e);
    lemma_dec_val_dec_bytes(n);
}

/// The items of a non-empty array, head first: the first string, then
/// each further string behind a comma.
spec fn comma_items(parts: Seq<Seq<u8>>) -> Seq<u8>
    decreases parts.len(),
{
    if parts.len() == 0 {
        Seq::empty()
    } else {
        seq![44u8] + jstr(parts[0]) + comma_items(parts.skip(1))
    }
}

proof fn lemma_comma_items_push(parts: Seq<Seq<u8>>, s: Seq<u8>)
    ensures
        comma_items(parts.push(s)) == comma_items(parts) + seq![44u8] + jstr(s),
    decreases parts.len(),
{
    if parts.len() == 0 {
        assert(parts.push(s)[0] == s);
        assert(parts.push(s).skip(1) =~= Seq::<Seq<u8>>::empty());
        assert(comma_items(Seq::<Seq<u8>>::empty()) =~= Seq::<u8>::empty());
        assert(comma_items(parts.push(s)) =~= comma_items(parts) + seq![44u8] + jstr(s));
    } else {
        assert(parts.push(s)[0] == parts[0]);
        assert(parts.push(s).skip(1) =~= parts.skip(1).push(s));
        lemma_comma_items_push(parts.skip(1), s);
        assert(comma_items(parts.push(s)) =~= comma_items(parts) + seq![44u8] + jstr(s));
    }
}

proof fn lemma_jarr_items_front(parts: Seq<Seq<u8>>)
    requires
        parts.len() > 0,
    ensures
        jarr_items(parts) == jstr(parts[0]) + comma_items(parts.skip(1)),
    decreases parts.len(),
{
    if parts.len() == 1 {
        assert(parts.drop_last() =~= Seq::<Seq<u8>>::empty());
        assert(jarr_items(parts.drop_last()) =~= Seq::<u8>::empty());
        assert(parts.skip(1) =~= Seq::<Seq<u8>>::empty());
        assert(parts.last() == parts[0]);
        assert(jarr_items(parts) =~= jstr(parts[0]) + comma_items(parts.skip(1)));
    } else {
        lemma_jarr_items_front(parts.drop_last());
        assert(parts.drop_last()[0] == parts[0]);
        assert(parts.drop_last().skip(1) =~= parts.skip(1).drop_last());
        lemma_comma_items_push(parts.skip(1).drop_last(), parts.last());
        assert(parts.skip(1).drop_last().push(parts.last()) =~= parts.skip(1));
        assert(jarr_items(parts) == jarr_items(parts.drop_last()) + seq![44u8] + jstr(
            parts.last(),
        ));
        assert(jarr_items(parts) =~= jstr(parts[0]) + comma_items(parts.skip(1)));
    }
}

proof fn lemma_jarr_tail_complete(line: Seq<u8>, i: int, parts: Seq<Seq<u8>>, acc: Seq<Seq<u8>>)
    requires
        0 <= i,
        parts.len() > 0,
        i + jarr_items(parts).len() < line.len(),
        line.subrange(i, i + jarr_items(parts).len()) == jarr_items(parts),
        line[i + jarr_items(parts).len()] == 93,
    ensures
        jarr_tail(line, i, acc) == Some((acc + parts, i + jarr_items(parts).len() + 1)),
    decreases parts.len(),
{
    lemma_jarr_items_front(parts);
    let head = jstr(parts[0]);
    let rest = comma_items(parts.skip(1));
    assert forall|j: int| 0 <= j < head.len() implies line[i + j] == head[j] by {
        assert(line.subrange(i, i + jarr_items(parts).len())[j] == line[i + j]);
        assert(jarr_items(parts)[j] == head[j]);
    }
    let p = i + head.len();
    assert(line.subrange(i, p) =~= head) by {
        assert forall|j: int| 0 <= j < head.len() implies line.subrange(i, p)[j] == head[j] by {
            assert(line.subrange(i, p)[j] == line[i + j]);
        }
    }
    lemma_jstr_parse_complete(line, i, parts[0]);
    assert(jstr_parse(line, i) == Some((parts[0], p)));
    if parts.len() == 1 {
        assert(rest =~= Seq::<u8>::empty());
        assert(line[p] == 93) by {
            assert(jarr_items(parts).len() == head.len());
        }
        assert(p > i) by {
            assert(head.len() >= 2);
        }
        assert(jarr_tail(line, i, acc) == Some((acc.push(parts[0]), p + 1)));
        assert(acc.push(parts[0]) =~= acc + parts) by {
            assert(parts =~= seq![parts[0]]);
        }
    } else {
        assert(rest.len() > 0);
        assert(line[p] == 44) by {
            assert(line.subrange(i, i + jarr_items(parts).len())[head.len() as int] == line[p]);
            assert(jarr_items(parts)[head.len() as int] == rest[0]);
            assert(rest[0] == 44);
        }
        assert(p > i) by {
            assert(head.len() >= 2);
        }
        let tail_items = jarr_items(parts.skip(1));
        lemma_jarr_items_front(parts.skip(1));
        assert(rest =~= seq![44u8] + tail_items) by {
            assert(parts.skip(1).len() > 0);
            assert(rest == seq![44u8] + jstr(parts.skip(1)[0]) + comma_items(
                parts.skip(1).skip(1),
            ));
            assert(tail_items == jstr(parts.skip(1)[0]) + comma_items(parts.skip(1).skip(1)));
        }
        assert(line.subrange(p + 1, p + 1 + tail_items.len()) =~= tail_items) by {
            assert forall|j: int| 0 <= j < tail_items.len() implies line.subrange(
                p + 1,
                p + 1 + tail_items.len(),
            )[j] == tail_items[j] by {
                assert(line.subrange(p + 1, p + 1 + tail_items.len())[j] == line[p + 1 + j]);
                assert(line.subrange(i, i + jarr_items(parts).len())[head.len() + 1 + j] == line[p
                    + 1 + j]);
                assert(jarr_items(parts)[head.len() + 1 + j] == rest[1 + j]);
                assert(rest[1 + j] == tail_items[j]);
            }
        }
        assert(line[p + 1 + tail_items.len()] == 93) by {
            assert(jarr_items(parts).len() == head.len() + 1 + tail_items.len());
        }
        lemma_jarr_tail_complete(line, p + 1, parts.skip(1), acc.push(parts[0]));
        assert(acc.push(parts[0]) + parts.skip(1) =~= acc + parts);
    }
}

/// The members of a non-empty object, head first.
spec fn comma_pairs(pairs: Seq<(Seq<u8>, Seq<u8>)>) -> Seq<u8>
    decreases pairs.len(),
{
    if pairs.len() == 0 {
        Seq::empty()
    } else {
        seq![44u8] + jstr(pairs[0].0) + seq![58u8] + jstr(pairs[0].1) + comma_pairs(pairs.skip(1))
    }
}

proof fn lemma_comma_pairs_push(pairs: Seq<(Seq<u8>, Seq<u8>)>, p: (Seq<u8>, Seq<u8>))
    ensures
        comma_pairs(pairs.push(p)) == comma_pairs(pairs) + seq![44u8] + jstr(p.0) + seq![58u8]
            + jstr(p.1),
    decreases pairs.len(),
{
    if pairs.len() == 0 {
        assert(pairs.push(p)[0] == p);
        assert(pairs.push(p).skip(1) =~= Seq::<(Seq<u8>, Seq<u8>)>::empty());
        assert(comma_pairs(Seq::<(Seq<u8>, Seq<u8>)>::empty()) =~= Seq::<u8>::empty());
        assert(comma_pairs(pairs.push(p)) =~= comma_pairs(pairs) + seq![44u8] + jstr(p.0) + seq![
            58u8,
        ] + jstr(p.1));
    } else {
        assert(pairs.push(p)[0] == pairs[0]);
        assert(pairs.push(p).skip(1) =~= pairs.skip(1).push(p));
        lemma_comma_pairs_push(pairs.skip(1), p);
        assert(comma_pairs(pairs.push(p)) =~= comma_pairs(pairs) + seq![44u8] + jstr(p.0) + seq![
            58u8,
        ] + jstr(p.1));
    }
}

proof fn lemma_jobj_items_front(pairs: Seq<(Seq<u8>, Seq<u8>)>)
    requires
        pairs.len() > 0,
    ensures
        jobj_items(pairs) == jstr(pairs[0].0) + seq![58u8] + jstr(pairs[0].1) + comma_pairs(
            pairs.skip(1),
        ),
    decreases pairs.len(),
{
    if pairs.len() == 1 {
        assert(pairs.drop_last() =~= Seq::<(Seq<u8>, Seq<u8>)>::empty());
        assert(jobj_items(pairs.drop_last()) =~= Seq::<u8>::empty());
        assert(pairs.skip(1) =~= Seq::<(Seq<u8>, Seq<u8>)>::empty());
        assert(pairs.last() == pairs[0]);
        assert(jobj_items(pairs) =~= jstr(pairs[0].0) + seq![58u8] + jstr(pairs[0].1)
            + comma_pairs(pairs.skip(1)));
    } else {
        lemma_jobj_items_front(pairs.drop_last());
        assert(pairs.drop_last()[0] == pairs[0]);
        assert(pairs.drop_last().skip(1) =~= pairs.skip(1).drop_last());
        lemma_comma_pairs_push(pairs.skip(1).drop_last(), pairs.last());
        assert(pairs.skip(1).drop_last().push(pairs.last()) =~= pairs.skip(1));
        assert(jobj_items(pairs) == jobj_items(pairs.drop_last()) + seq![44u8] + jstr(
            pairs.last().0,
        ) + seq![58u8] + jstr(pairs.last().1));
        assert(jobj_items(pairs) =~= jstr(pairs[0].0) + seq![58u8] + jstr(pairs[0].1)
            + comma_pairs(pairs.skip(1)));
    }
}

proof fn lemma_jobj_tail_complete(
    line: Seq<u8>,
    i: int,
    pairs: Seq<(Seq<u8>, Seq<u8>)>,
    acc: Seq<(Seq<u8>, Seq<u8>)>,
)
    requires
        0 <= i,
        pairs.len() > 0,
        i + jobj_items(pairs).len() < line.len(),
        line.subrange(i, i + jobj_items(pairs).len()) == jobj_items(pairs),
        line[i + jobj_items(pairs).len()] == 125,
    ensures
        jobj_tail(line, i, acc) == Some((acc + pairs, i + jobj_items(pairs).len() + 1)),
    decreases pairs.len(),
{
    lemma_jobj_items_front(pairs);
    let name = jstr(pairs[0].0);
    let value = jstr(pairs[0].1);
    let item = name + seq![58u8] + value;
    let rest = comma_pairs(pairs.skip(1));
    let whole = jobj_items(pairs);
    assert(whole.len() == item.len() + rest.len());
    assert forall|j: int| 0 <= j < item.len() implies line[i + j] == item[j] by {
        assert(line.subrange(i, i + whole.len())[j] == line[i + j]);
        assert(whole[j] == item[j]);
    }
    assert(line.subrange(i, i + name.len()) =~= name) by {
        assert forall|j: int| 0 <= j < name.len() implies line.subrange(
            i,
            i + name.len(),
        )[j] == name[j] by {
            assert(line.subrange(i, i + name.len())[j] == line[i + j]);
            assert(item[j] == name[j]);
        }
    }
    lemma_jstr_parse_complete(line, i, pairs[0].0);
    let p = i + name.len();
    assert(line[p] == 58) by {
        assert(item[name.len() as int] == 58);
    }
    assert(line.subrange(p + 1, p + 1 + value.len()) =~= value) by {
        assert forall|j: int| 0 <= j < value.len() implies line.subrange(
            p + 1,
            p + 1 + value.len(),
        )[j] == value[j] by {
            assert(line.subrange(p + 1, p + 1 + value.len())[j] == line[p + 1 + j]);
            assert(item[name.len() + 1 + j] == value[j]);
        }
    }
    lemma_jstr_parse_complete(line, p + 1, pairs[0].1);
    let q = p + 1 + value.len();
    assert(p > i && q > p) by {
        assert(name.len() >= 2 && value.len() >= 2);
    }
    if pairs.len() == 1 {
        assert(rest =~= Seq::<u8>::empty());
        assert(line[q] == 125) by {
            assert(whole.len() == item.len());
        }
        assert(jobj_tail(line, i, acc) == Some((acc.push(pairs[0]), q + 1)));
        assert(acc.push(pairs[0]) =~= acc + pairs) by {
            assert(pairs =~= seq![pairs[0]]);
        }
    } else {
        assert(rest.len() > 0);
        assert(line[q] == 44) by {
            assert(line.subrange(i, i + whole.len())[item.len() as int] == line[q]);
            assert(whole[item.len() as int] == rest[0]);
            assert(rest[0] == 44);
        }
        let tail_items = jobj_items(pairs.skip(1));
        lemma_jobj_items_front(pairs.skip(1));
        assert(rest =~= seq![44u8] + tail_items) by {
            assert(pairs.skip(1).len() > 0);
            assert(rest == seq![44u8] + jstr(pairs.skip(1)[0].0) + seq![58u8] + jstr(
                pairs.skip(1)[0].1,
            ) + comma_pairs(pairs.skip(1).skip(1)));
            assert(tail_items == jstr(pairs.skip(1)[0].0) + seq![58u8] + jstr(pairs.skip(1)[0].1)
                + comma_pairs(pairs.skip(1).skip(1)));
        }
        assert(line.subrange(q + 1, q + 1 + tail_items.len()) =~= tail_items) by {
            assert forall|j: int| 0 <= j < tail_items.len() implies line.subrange(
                q + 1,
                q + 1 + tail_items.len(),
            )[j] == tail_items[j] by {
                assert(line.subrange(q + 1, q + 1 + tail_items.len())[j] == line[q + 1 + j]);
                assert(line.subrange(i, i + whole.len())[item.len() + 1 + j] == line[q + 1 + j]);
                assert(whole[item.len() + 1 + j] == rest[1 + j]);
                assert(rest[1 + j] == tail_items[j]);
            }
        }
        assert(line[q + 1 + tail_items.len()] == 125) by {
            assert(whole.len() == item.len() + 1 + tail_items.len());
        }
        lemma_jobj_tail_complete(line, q + 1, pairs.skip(1), acc.push(pairs[0]));
        assert(acc.push(pairs[0]) + pairs.skip(1) =~= acc + pairs);
    }
}

/// A canonical spill line parses back to exactly its record.
#[verifier::rlimit(100)]
#[verifier::spinoff_prover]
proof fn lemma_spill_parse_complete(rv: RecV)
    requires
        rv.row_index <= usize::MAX,
    ensures
        spill_parse(spill_line(rv)) == Some(rv),
{
    let line = spill_line(rv);
    let a7 = ascii_bytes("{\"key\":"@);
    let a8 = ascii_bytes("{\"key\":["@);
    let b13 = ascii_bytes(",\"row_index\":"@);
    let c7 = ascii_bytes(",\"row\":"@);
    let c8 = ascii_bytes(",\"row\":{"@);
    lemma_literal_brackets();
    assert(a8 =~= a7 + seq![91u8]);
    assert(c8 =~= c7 + seq![123u8]);
    let ka = jarr(rv.key);
    let dn = dec_bytes(rv.row_index);
    let ro = jobj(rv.row);
    assert(line == a7 + ka + b13 + dn + c7 + ro + seq![125u8]);
    // positions of each piece
    let p0 = a8.len() as int;
    let p1 = (a7.len() + ka.len()) as int;
    let p2 = p1 + b13.len() as int;
    let p3 = p2 + dn.len() as int;
    let p4 = p3 + c8.len() as int;
    let p5 = (a7.len() + ka.len() + b13.len() + dn.len() + c7.len() + ro.len()) as int;
    assert(line.len() == p5 + 1);
    assert(lit_at(line, 0, a8)) by {
        assert(line.subrange(0, a8.len() as int) =~= a8);
    }
    // the key array
    lemma_dec_bytes_digits(rv.row_index);
    let key_step = if p0 < line.len() && line[p0] == 93 {
        Some((Seq::<Seq<u8>>::empty(), p0 + 1))
    } else {
        jarr_tail(line, p0, Seq::<Seq<u8>>::empty())
    };
    if rv.key.len() == 0 {
        assert(jarr_items(rv.key) =~= Seq::<u8>::empty());
        assert(line[p0] == 93) by {
            assert(ka[1] == 93);
            assert(line[a7.len() as int + 1] == ka[1]);
        }
        assert(key_step == Some((Seq::<Seq<u8>>::empty(), p0 + 1)));
        assert(Seq::<Seq<u8>>::empty() =~= rv.key);
        assert(key_step == Some((rv.key, p1 as int)));
    } else {
        let items = jarr_items(rv.key);
        lemma_jarr_items_front(rv.key);
        assert(line[p0] == 34) by {
            assert(ka[1] == items[0]);
            assert(items[0] == jstr(rv.key[0])[0]);
            assert(line[a7.len() as int + 1] == ka[1]);
        }
        assert(!(line[p0] == 93));
        assert(line.subrange(p0, p0 + items.len()) =~= items) by {
            assert forall|j: int| 0 <= j < items.len() implies line.subrange(
                p0,
                p0 + items.len(),
            )[j] == items[j] by {
                assert(line.subrange(p0, p0 + items.len())[j] == line[p0 + j]);
                assert(line[a7.len() + 1 + j] == ka[1 + j]);
                assert(ka[1 + j] == items[j]);
            }
        }
        assert(line[p0 + items.len()] == 93) by {
            assert(ka[ka.len() - 1] == 93);
            assert(line[a7.len() + ka.len() - 1] == ka[ka.len() - 1]);
        }
        lemma_jarr_tail_complete(line, p0, rv.key, Seq::empty());
        assert(Seq::<Seq<u8>>::empty() + rv.key =~= rv.key);
        assert(key_step == Some((rv.key, p1 as int)));
    }
    // ",\"row_index\":" and the row index digits
    assert(lit_at(line, p1 as int, b13)) by {
        assert(line.subrange(p1 as int, p1 + b13.len()) =~= b13);
    }
    assert(line.subrange(p2 as int, p2 + dn.len()) =~= dn) by {
        assert forall|j: int| 0 <= j < dn.len() implies line.subrange(
            p2 as int,
            p2 + dn.len(),
        )[j] == dn[j] by {
            assert(line.subrange(p2 as int, p2 + dn.len())[j] == line[p2 + j]);
            assert(line[p2 + j] == dn[j]);
        }
    }
    assert(line[p2 + dn.len()] == 44) by {
        reveal_strlit(",\"row\":");
        assert(c7[0] == 44);
        assert(line[p3 as int] == c7[0]);
    }
    lemma_digits_parse_complete(line, p2 as int, rv.row_index);
    // ",\"row\":{" and the row object
    assert(lit_at(line, p3 as int, c8)) by {
        assert(line.subrange(p3 as int, p3 + c8.len()) =~= c8);
    }
    let row_step = if p4 < line.len() && line[p4] == 125 {
        Some((Seq::<(Seq<u8>, Seq<u8>)>::empty(), p4 + 1))
    } else {
        jobj_tail(line, p4 as int, Seq::empty())
    };
    if rv.row.len() == 0 {
        assert(jobj_items(rv.row) =~= Seq::<u8>::empty());
        assert(line[p4] == 125) by {
            assert(ro[1] == 125);
            assert(line[(a7.len() + ka.len() + b13.len() + dn.len() + c7.len()) as int + 1] == ro[1]);
        }
        assert(Seq::<(Seq<u8>, Seq<u8>)>::empty() =~= rv.row);
        assert(row_step == Some((rv.row, p5 as int)));
    } else {
        let items = jobj_items(rv.row);
        lemma_jobj_items_front(rv.row);
        assert(line[p4] == 34) by {
            assert(ro[1] == items[0]);
            assert(items[0] == jstr(rv.row[0].0)[0]);
            assert(line[(a7.len() + ka.len() + b13.len() + dn.len() + c7.len()) as int + 1] == ro[1]);
        }
        assert(!(line[p4] == 125));
        assert(line.subrange(p4 as int, p4 + items.len()) =~= items) by {
            assert forall|j: int| 0 <= j < items.len() implies line.subrange(
                p4 as int,
                p4 + items.len(),
            )[j] == items[j] by {
                assert(line.subrange(p4 as int, p4 + items.len())[j] == line[p4 + j]);
                assert(line[a7.len() + ka.len() + b13.len() + dn.len() + c7.len() + 1 + j] == ro[1
                    + j]);
                assert(ro[1 + j] == items[j]);
            }
        }
        assert(line[p4 + items.len()] == 125) by {
            assert(ro[ro.len() - 1] == 125);
            assert(line[a7.len() + ka.len() + b13.len() + dn.len() + c7.len() + ro.len() - 1]
                == ro[ro.len() - 1]);
        }
        lemma_jobj_tail_complete(line, p4 as int, rv.row, Seq::empty());
        assert(Seq::<(Seq<u8>, Seq<u8>)>::empty() + rv.row =~= rv.row);
        assert(row_step == Some((rv.row, p5 as int)));
    }
    // the closing brace ends the line
    assert(line[p5 as int] == 125);
    assert(p5 + 1 == line.len());
    assert(spill_parse(line) == Some(RecV { key: rv.key, row_index: rv.row_index, row: rv.row }));
    assert(RecV { key: rv.key, row_index: rv.row_index, row: rv.row } == rv);
}

/// The two eight-character literals are the seven-character ones with
/// the opening bracket or brace appended.
proof fn lemma_literal_brackets()
    ensures
        ascii_bytes("{\"key\":["@) =~= ascii_bytes("{\"key\":"@) + seq![91u8],
        ascii_bytes(",\"row\":{"@) =~= ascii_bytes(",\"row\":"@) + seq![123u8],
{
    reveal_strlit("{\"key\":[");
    reveal_strlit("{\"key\":");
    reveal_strlit(",\"row\":{");
    reveal_strlit(",\"row\":");
}

} // verus!
