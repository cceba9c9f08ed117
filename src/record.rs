use vstd::prelude::*;
use crate::stats::Statistics;

verus! {

/// ASCII code of the character `0`.
pub const DIGIT_ZERO: u8 = 48;

/// ASCII code of the space that separates the fields of a record.
pub const FIELD_SEP: u8 = 32;

/// ASCII code of the newline that ends a record.
pub const RECORD_END: u8 = 10;

pub open spec fn is_digit(b: u8) -> bool {
    DIGIT_ZERO <= b <= DIGIT_ZERO + 9
}

/// The decimal digits of `n`, most significant first, without leading zeros.
pub open spec fn dec(n: nat) -> Seq<u8>
    decreases n,
{
    if n < 10 {
        seq![(DIGIT_ZERO + n) as u8]
    } else {
        dec(n / 10).push((DIGIT_ZERO + n % 10) as u8)
    }
}

/// The number that a sequence of decimal digits denotes.
pub open spec fn value_of(s: Seq<u8>) -> nat
    decreases s.len(),
{
    if s.len() == 0 {
        0
    } else {
        (value_of(s.drop_last()) * 10 + (s.last() - DIGIT_ZERO)) as nat
    }
}

/// The end of the run of digits that starts at `pos`.
pub open spec fn run_end(s: Seq<u8>, pos: int) -> int
    decreases s.len() - pos,
{
    if pos < 0 || pos >= s.len() || !is_digit(s[pos]) {
        pos
    } else {
        run_end(s, pos + 1)
    }
}

/// A non-empty run of digits at `pos` whose value fits in 128 bits, followed by
/// `sep`: its value and the position after the separator.
pub open spec fn parse_field(s: Seq<u8>, pos: int, sep: u8) -> Option<(nat, int)> {
    let e = run_end(s, pos);
    if 0 <= pos < e < s.len() && s[e] == sep && value_of(s.subrange(pos, e)) <= u128::MAX {
        Some((value_of(s.subrange(pos, e)), e + 1))
    } else {
        None
    }
}

/// The text of one record: the slot, count, minimum, maximum, sum, and the
/// high and low parts of the sum of squares in decimal, separated by spaces
/// and ended by a newline.
pub open spec fn record_bytes(slot: u64, st: Statistics) -> Seq<u8> {
    dec(slot as nat).push(FIELD_SEP)
        + dec(st.count as nat).push(FIELD_SEP)
        + dec(st.min as nat).push(FIELD_SEP)
        + dec(st.max as nat).push(FIELD_SEP)
        + dec(st.sum as nat).push(FIELD_SEP)
        + dec(st.sum_sq_hi as nat).push(FIELD_SEP)
        + dec(st.sum_sq_lo as nat).push(RECORD_END)
}

/// What a line of text reads as: seven fields, all but the fifth and the
/// seventh within 64 bits,
/// and nothing after the newline.
#[verifier::opaque]
pub open spec fn parse_spec(s: Seq<u8>) -> Option<(u64, Statistics)> {
    match parse_field(s, 0, FIELD_SEP) {
        None => None,
        Some((slot, p1)) => match parse_field(s, p1, FIELD_SEP) {
            None => None,
            Some((count, p2)) => match parse_field(s, p2, FIELD_SEP) {
                None => None,
                Some((min, p3)) => match parse_field(s, p3, FIELD_SEP) {
                    None => None,
                    Some((max, p4)) => match parse_field(s, p4, FIELD_SEP) {
                        None => None,
                        Some((sum, p5)) => match parse_field(s, p5, FIELD_SEP) {
                            None => None,
                            Some((hi, p6)) => match parse_field(s, p6, RECORD_END) {
                                None => None,
                                Some((lo, p7)) => if p7 == s.len() && slot <= u64::MAX
                                    && count <= u64::MAX && min <= u64::MAX && max
                                    <= u64::MAX && hi <= u64::MAX {
                                    Some(
                                        (
                                            slot as u64,
                                            Statistics {
                                                count: count as u64,
                                                min: min as u64,
                                                max: max as u64,
                                                sum: sum as u128,
                                                sum_sq_hi: hi as u64,
                                                sum_sq_lo: lo as u128,
                                            },
                                        ),
                                    )
                                } else {
                                    None
                                },
                            },
                        },
                    },
                },
            },
        },
    }
}

proof fn lemma_dec_digits(n: nat)
    ensures
        dec(n).len() > 0,
        forall|i: int| 0 <= i < dec(n).len() ==> is_digit(#[trigger] dec(n)[i]),
        value_of(dec(n)) == n,
    decreases n,
{
    if n < 10 {
        let s = dec(n);
        assert(s.drop_last().len() == 0);
        assert(value_of(s.drop_last()) == 0);
    } else {
        lemma_dec_digits(n / 10);
        let s = dec(n);
        assert(s.drop_last() =~= dec(n / 10));
        assert forall|i: int| 0 <= i < s.len() implies is_digit(#[trigger] s[i]) by {
            if i < s.len() - 1 {
                assert(s[i] == dec(n / 10)[i]);
            }
        }
    }
}

proof fn lemma_run_end(s: Seq<u8>, pos: int, e: int)
    requires
        0 <= pos <= e,
        e < s.len(),
        !is_digit(s[e]),
        forall|i: int| pos <= i < e ==> is_digit(#[trigger] s[i]),
    ensures
        run_end(s, pos) == e,
    decreases e - pos,
{
    if pos < e {
        lemma_run_end(s, pos + 1, e);
    }
}

proof fn lemma_field_at(s: Seq<u8>, pos: int, n: nat, sep: u8)
    requires
        0 <= pos,
        pos + dec(n).len() < s.len(),
        s.subrange(pos, pos + dec(n).len()) == dec(n),
        s[pos + dec(n).len()] == sep,
        !is_digit(sep),
        n <= u128::MAX,
    ensures
        parse_field(s, pos, sep) == Some((n, pos + dec(n).len() + 1)),
{
    let e = pos + dec(n).len();
    lemma_dec_digits(n);
    assert forall|i: int| pos <= i < e implies is_digit(#[trigger] s[i]) by {
        assert(s[i] == s.subrange(pos, e)[i - pos]);
    }
    lemma_run_end(s, pos, e);
}

/// Parsing the text of a record gives back the slot and the aggregates it
/// was rendered from.
pub proof fn lemma_record_round_trip(slot: u64, st: Statistics)
    ensures
        parse_spec(record_bytes(slot, st)) == Some((slot, st)),
{
    reveal(parse_spec);
    let a = dec(slot as nat);
    let b = dec(st.count as nat);
    let c = dec(st.min as nat);
    let d = dec(st.max as nat);
    let e = dec(st.sum as nat);
    let f = dec(st.sum_sq_hi as nat);
    let g = dec(st.sum_sq_lo as nat);
    let s = record_bytes(slot, st);
    let p1: int = a.len() as int + 1;
    let p2: int = p1 + b.len() + 1;
    let p3: int = p2 + c.len() + 1;
    let p4: int = p3 + d.len() + 1;
    let p5: int = p4 + e.len() + 1;
    let p6: int = p5 + f.len() + 1;
    assert(s.len() == p6 + g.len() + 1);
    assert(s.subrange(0, a.len() as int) =~= a);
    assert(s.subrange(p1, p1 + b.len()) =~= b);
    assert(s.subrange(p2, p2 + c.len()) =~= c);
    assert(s.subrange(p3, p3 + d.len()) =~= d);
    assert(s.subrange(p4, p4 + e.len()) =~= e);
    assert(s.subrange(p5, p5 + f.len()) =~= f);
    assert(s.subrange(p6, p6 + g.len()) =~= g);
    lemma_field_at(s, 0, slot as nat, FIELD_SEP);
    lemma_field_at(s, p1, st.count as nat, FIELD_SEP);
    lemma_field_at(s, p2, st.min as nat, FIELD_SEP);
    lemma_field_at(s, p3, st.max as nat, FIELD_SEP);
    lemma_field_at(s, p4, st.sum as nat, FIELD_SEP);
    lemma_field_at(s, p5, st.sum_sq_hi as nat, FIELD_SEP);
    lemma_field_at(s, p6, st.sum_sq_lo as nat, RECORD_END);
}

proof fn lemma_run_end_digits(s: Seq<u8>, pos: int)
    requires
        0 <= pos <= s.len(),
    ensures
        pos <= run_end(s, pos) <= s.len(),
        forall|k: int| pos <= k < run_end(s, pos) ==> is_digit(#[trigger] s[k]),
    decreases s.len() - pos,
{
    if pos < s.len() && is_digit(s[pos]) {
        lemma_run_end_digits(s, pos + 1);
    }
}

proof fn lemma_value_prefix(t: Seq<u8>, j: int)
    requires
        0 <= j <= t.len(),
        forall|k: int| 0 <= k < t.len() ==> is_digit(#[trigger] t[k]),
    ensures
        value_of(t.take(j)) <= value_of(t),
    decreases t.len() - j,
{
    if j < t.len() {
        lemma_value_prefix(t, j + 1);
        let u = t.take(j + 1);
        assert(u.drop_last() =~= t.take(j));
        assert(is_digit(u.last()));
    } else {
        assert(t.take(j) =~= t);
    }
}

/// Appends the decimal digits of `n`.
pub fn write_decimal(n: u128, out: &mut Vec<u8>)
    ensures
        final(out)@ == old(out)@ + dec(n as nat),
    decreases n,
{
    if n < 10 {
        out.push(DIGIT_ZERO + n as u8);
        assert(old(out)@.push((DIGIT_ZERO + n) as u8) =~= old(out)@ + dec(n as nat));
    } else {
        write_decimal(n / 10, out);
        out.push(DIGIT_ZERO + (n % 10) as u8);
        assert(old(out)@ + dec(n as nat) =~= old(out)@ + dec((n / 10) as nat) + seq![
            (DIGIT_ZERO + n % 10) as u8,
        ]);
    }
}

/// Reads the run of digits at `pos`, which must be non-empty, fit in 128
/// bits and be followed by `sep`; returns its value and the position after
/// the separator.
pub fn parse_decimal(s: &Vec<u8>, pos: usize, sep: u8) -> (r: Option<(u128, usize)>)
    ensures
        r is None <==> parse_field(s@, pos as int, sep) is None,
        r is Some ==> parse_field(s@, pos as int, sep) == Some(
            (r->Some_0.0 as nat, r->Some_0.1 as int),
        ),
{
    let n = s.len();
    let mut acc: u128 = 0;
    let mut i: usize = pos;
    if pos >= n {
        return None;
    }
    proof {
        assert(s@.subrange(pos as int, pos as int) =~= Seq::<u8>::empty());
    }
    while i < n && DIGIT_ZERO <= s[i] && s[i] <= DIGIT_ZERO + 9
        invariant
            n == s@.len(),
            pos <= i <= n,
            acc == value_of(s@.subrange(pos as int, i as int)),
            run_end(s@, pos as int) == run_end(s@, i as int),
        decreases n - i,
    {
        let d = s[i] - DIGIT_ZERO;
        proof {
            let t = s@.subrange(pos as int, i as int + 1);
            assert(t.drop_last() =~= s@.subrange(pos as int, i as int));
            lemma_run_end_digits(s@, i as int + 1);
        }
        if acc > (u128::MAX - d as u128) / 10 {
            proof {
                let e = run_end(s@, pos as int);
                lemma_run_end_digits(s@, pos as int);
                let full = s@.subrange(pos as int, e);
                assert forall|k: int| 0 <= k < full.len() implies is_digit(#[trigger] full[k]) by {
                    assert(full[k] == s@[pos + k]);
                }
                assert(full.take(i as int + 1 - pos) =~= s@.subrange(pos as int, i as int + 1));
                lemma_value_prefix(full, i as int + 1 - pos);
                assert(acc * 10 + d > u128::MAX) by (nonlinear_arith)
                    requires
                        acc > (u128::MAX - d) / 10,
                        d <= 9,
                ;
            }
            return None;
        }
        proof {
            assert(acc * 10 + d <= u128::MAX) by (nonlinear_arith)
                requires
                    acc <= (u128::MAX - d) / 10,
                    d <= 9,
            ;
        }
        acc = acc * 10 + d as u128;
        i = i + 1;
    }
    if i == pos || i >= n || s[i] != sep {
        return None;
    }
    Some((acc, i + 1))
}

/// The text of one record, as `record_bytes` describes it.
pub fn render_record(slot: u64, st: &Statistics) -> (r: Vec<u8>)
    ensures
        r@ == record_bytes(slot, *st),
{
    let mut out: Vec<u8> = Vec::new();
    write_decimal(slot as u128, &mut out);
    out.push(FIELD_SEP);
    write_decimal(st.count as u128, &mut out);
    out.push(FIELD_SEP);
    write_decimal(st.min as u128, &mut out);
    out.push(FIELD_SEP);
    write_decimal(st.max as u128, &mut out);
    out.push(FIELD_SEP);
    write_decimal(st.sum, &mut out);
    out.push(FIELD_SEP);
    write_decimal(st.sum_sq_hi as u128, &mut out);
    out.push(FIELD_SEP);
    write_decimal(st.sum_sq_lo, &mut out);
    out.push(RECORD_END);
    assert(out@ =~= record_bytes(slot, *st));
    out
}

/// Reads one record back from its text; `None` exactly when `parse_spec`
/// rejects the text.
pub fn parse_record(s: &Vec<u8>) -> (r: Option<(u64, Statistics)>)
    ensures
        r == parse_spec(s@),
{
    reveal(parse_spec);
    let (slot, p1) = match parse_decimal(s, 0, FIELD_SEP) {
        Some(x) => x,
        None => {
            assert(parse_field(s@, 0 as int, FIELD_SEP) is None);
            return None;
        },
    };
    assert(parse_field(s@, 0 as int, FIELD_SEP) == Some((slot as nat, p1 as int)));
    let (count, p2) = match parse_decimal(s, p1, FIELD_SEP) {
        Some(x) => x,
        None => {
            assert(parse_field(s@, p1 as int, FIELD_SEP) is None);
            return None;
        },
    };
    assert(parse_field(s@, p1 as int, FIELD_SEP) == Some((count as nat, p2 as int)));
    let (min, p3) = match parse_decimal(s, p2, FIELD_SEP) {
        Some(x) => x,
        None => {
            assert(parse_field(s@, p2 as int, FIELD_SEP) is None);
            return None;
        },
    };
    assert(parse_field(s@, p2 as int, FIELD_SEP) == Some((min as nat, p3 as int)));
    let (max, p4) = match parse_decimal(s, p3, FIELD_SEP) {
        Some(x) => x,
        None => {
            assert(parse_field(s@, p3 as int, FIELD_SEP) is None);
            return None;
        },
    };
    assert(parse_field(s@, p3 as int, FIELD_SEP) == Some((max as nat, p4 as int)));
    let (sum, p5) = match parse_decimal(s, p4, FIELD_SEP) {
        Some(x) => x,
        None => {
            assert(parse_field(s@, p4 as int, FIELD_SEP) is None);
            return None;
        },
    };
    assert(parse_field(s@, p4 as int, FIELD_SEP) == Some((sum as nat, p5 as int)));
    let (hi, p6) = match parse_decimal(s, p5, FIELD_SEP) {
        Some(x) => x,
        None => {
            assert(parse_field(s@, p5 as int, FIELD_SEP) is None);
            return None;
        },
    };
    assert(parse_field(s@, p5 as int, FIELD_SEP) == Some((hi as nat, p6 as int)));
    let (lo, p7) = match parse_decimal(s, p6, RECORD_END) {
        Some(x) => x,
        None => {
            assert(parse_field(s@, p6 as int, RECORD_END) is None);
            return None;
        },
    };
    assert(parse_field(s@, p6 as int, RECORD_END) == Some((lo as nat, p7 as int)));
    if p7 != s.len() || slot > u64::MAX as u128 || count > u64::MAX as u128 || min > u64::MAX as u128
        || max > u64::MAX as u128 || hi > u64::MAX as u128 {
        return None;
    }
    Some(
        (
            slot as u64,
            Statistics {
                count: count as u64,
                min: min as u64,
                max: max as u64,
                sum,
                sum_sq_hi: hi as u64,
                sum_sq_lo: lo,
            },
        ),
    )
}

/// The text of a sequence of records, one line each, in order.
pub open spec fn report_bytes(recs: Seq<(u64, Statistics)>) -> Seq<u8>
    decreases recs.len(),
{
    if recs.len() == 0 {
        Seq::empty()
    } else {
        record_bytes(recs[0].0, recs[0].1) + report_bytes(recs.skip(1))
    }
}

/// The position of the first newline at or after `pos`, or the length of
/// the text when there is none.
pub open spec fn line_end(s: Seq<u8>, pos: int) -> int
    decreases s.len() - pos,
{
    if pos < 0 || pos >= s.len() || s[pos] == RECORD_END {
        pos
    } else {
        line_end(s, pos + 1)
    }
}

/// What a text of newline-ended records reads as: each line must read as a
/// record.
pub open spec fn parse_report_spec(s: Seq<u8>) -> Option<Seq<(u64, Statistics)>>
    decreases s.len(),
{
    if s.len() == 0 {
        Some(Seq::empty())
    } else {
        let e = line_end(s, 0);
        if e < 0 || e >= s.len() {
            None
        } else {
            match parse_spec(s.take(e + 1)) {
                None => None,
                Some(rec) => match parse_report_spec(s.skip(e + 1)) {
                    None => None,
                    Some(rest) => Some(seq![rec] + rest),
                },
            }
        }
    }
}

proof fn lemma_line_end(s: Seq<u8>, pos: int, e: int)
    requires
        0 <= pos <= e < s.len(),
        s[e] == RECORD_END,
        forall|i: int| pos <= i < e ==> #[trigger] s[i] != RECORD_END,
    ensures
        line_end(s, pos) == e,
    decreases e - pos,
{
    if pos < e {
        lemma_line_end(s, pos + 1, e);
    }
}

proof fn lemma_line_end_bounds(s: Seq<u8>, pos: int)
    requires
        0 <= pos <= s.len(),
    ensures
        pos <= line_end(s, pos) <= s.len(),
        line_end(s, pos) < s.len() ==> s[line_end(s, pos)] == RECORD_END,
        forall|i: int| pos <= i < line_end(s, pos) ==> #[trigger] s[i] != RECORD_END,
    decreases s.len() - pos,
{
    if pos < s.len() && s[pos] != RECORD_END {
        lemma_line_end_bounds(s, pos + 1);
    }
}

proof fn lemma_record_one_line(slot: u64, st: Statistics)
    ensures
        record_bytes(slot, st).len() > 0,
        record_bytes(slot, st).last() == RECORD_END,
        forall|i: int| 0 <= i < record_bytes(slot, st).len() - 1 ==> #[trigger] record_bytes(
            slot,
            st,
        )[i] != RECORD_END,
{
    let r = record_bytes(slot, st);
    let a = dec(slot as nat);
    let b = dec(st.count as nat);
    let c = dec(st.min as nat);
    let d = dec(st.max as nat);
    let e = dec(st.sum as nat);
    let f = dec(st.sum_sq_hi as nat);
    let g = dec(st.sum_sq_lo as nat);
    lemma_dec_digits(slot as nat);
    lemma_dec_digits(st.count as nat);
    lemma_dec_digits(st.min as nat);
    lemma_dec_digits(st.max as nat);
    lemma_dec_digits(st.sum as nat);
    lemma_dec_digits(st.sum_sq_hi as nat);
    lemma_dec_digits(st.sum_sq_lo as nat);
    assert forall|i: int| 0 <= i < r.len() - 1 implies #[trigger] r[i] != RECORD_END by {
        let p1: int = a.len() as int + 1;
        let p2: int = p1 + b.len() + 1;
        let p3: int = p2 + c.len() + 1;
        let p4: int = p3 + d.len() + 1;
        let p5: int = p4 + e.len() + 1;
        let p6: int = p5 + f.len() + 1;
        if i < a.len() {
            assert(r[i] == a[i]);
        } else if i < p1 {
            assert(r[i] == FIELD_SEP);
        } else if i < p1 + b.len() {
            assert(r[i] == b[i - p1]);
        } else if i < p2 {
            assert(r[i] == FIELD_SEP);
        } else if i < p2 + c.len() {
            assert(r[i] == c[i - p2]);
        } else if i < p3 {
            assert(r[i] == FIELD_SEP);
        } else if i < p3 + d.len() {
            assert(r[i] == d[i - p3]);
        } else if i < p4 {
            assert(r[i] == FIELD_SEP);
        } else if i < p4 + e.len() {
            assert(r[i] == e[i - p4]);
        } else if i < p5 {
            assert(r[i] == FIELD_SEP);
        } else if i < p5 + f.len() {
            assert(r[i] == f[i - p5]);
        } else if i < p6 {
            assert(r[i] == FIELD_SEP);
        } else {
            assert(r[i] == g[i - p6]);
        }
    }
}

proof fn lemma_report_head(recs: Seq<(u64, Statistics)>)
    requires
        recs.len() > 0,
    ensures
        ({
            let head = record_bytes(recs[0].0, recs[0].1);
            let s = report_bytes(recs);
            &&& line_end(s, 0) == head.len() - 1
            &&& s.take(head.len() as int) == head
            &&& s.skip(head.len() as int) == report_bytes(recs.skip(1))
        }),
{
    let head = record_bytes(recs[0].0, recs[0].1);
    let s = report_bytes(recs);
    lemma_record_one_line(recs[0].0, recs[0].1);
    let e = head.len() - 1;
    assert forall|i: int| 0 <= i < e implies #[trigger] s[i] != RECORD_END by {
        assert(s[i] == head[i]);
    }
    assert(s[e] == head.last());
    lemma_line_end(s, 0, e);
    assert(s.take(e + 1) =~= head);
    assert(s.skip(e + 1) =~= report_bytes(recs.skip(1)));
}

/// Parsing the text of a sequence of records gives back the records, in
/// order.
pub proof fn lemma_report_round_trip(recs: Seq<(u64, Statistics)>)
    ensures
        parse_report_spec(report_bytes(recs)) == Some(recs),
    decreases recs.len(),
{
    if recs.len() == 0 {
        assert(report_bytes(recs).len() == 0);
    } else {
        lemma_report_head(recs);
        lemma_record_round_trip(recs[0].0, recs[0].1);
        lemma_report_round_trip(recs.skip(1));
        assert(seq![recs[0]] + recs.skip(1) =~= recs);
    }
}

/// The text of a sequence of records, as `report_bytes` describes it.
pub fn render_report(recs: &Vec<(u64, Statistics)>) -> (r: Vec<u8>)
    ensures
        r@ == report_bytes(recs@),
{
    let mut out: Vec<u8> = Vec::new();
    let mut k: usize = 0;
    assert(recs@.skip(0) =~= recs@);
    assert(out@ + report_bytes(recs@.skip(0)) =~= report_bytes(recs@));
    while k < recs.len()
        invariant
            0 <= k <= recs@.len(),
            out@ + report_bytes(recs@.skip(k as int)) == report_bytes(recs@),
        decreases recs@.len() - k,
    {
        let (slot, st) = recs[k];
        let mut line = render_record(slot, &st);
        let ghost prev = out@;
        out.append(&mut line);
        proof {
            let t = recs@.skip(k as int);
            assert(t.skip(1) =~= recs@.skip(k as int + 1));
            assert(t[0] == recs@[k as int]);
            assert(out@ + report_bytes(recs@.skip(k as int + 1)) =~= prev + report_bytes(t));
        }
        k = k + 1;
    }
    assert(recs@.skip(k as int).len() == 0);
    assert(out@ =~= out@ + report_bytes(recs@.skip(k as int)));
    out
}

/// Copies the bytes from `lo` up to, not including, `hi`.
fn copy_range(s: &Vec<u8>, lo: usize, hi: usize) -> (r: Vec<u8>)
    requires
        lo <= hi <= s@.len(),
    ensures
        r@ == s@.subrange(lo as int, hi as int),
{
    let mut r: Vec<u8> = Vec::new();
    let mut i: usize = lo;
    while i < hi
        invariant
            lo <= i <= hi <= s@.len(),
            r@ == s@.subrange(lo as int, i as int),
        decreases hi - i,
    {
        r.push(s[i]);
        assert(r@ =~= s@.subrange(lo as int, i as int + 1));
        i = i + 1;
    }
    r
}

/// Reads back a text of newline-ended records; `None` exactly when
/// `parse_report_spec` rejects the text.
pub fn parse_report(s: &Vec<u8>) -> (r: Option<Vec<(u64, Statistics)>>)
    ensures
        match parse_report_spec(s@) {
            None => r is None,
            Some(recs) => r is Some && r->Some_0@ == recs,
        },
{
    let n = s.len();
    let mut recs: Vec<(u64, Statistics)> = Vec::new();
    let mut pos: usize = 0;
    assert(s@.skip(0) =~= s@);
    while pos < n
        invariant
            n == s@.len(),
            pos <= n,
            parse_report_spec(s@) == match parse_report_spec(s@.skip(pos as int)) {
                None => None,
                Some(x) => Some(recs@ + x),
            },
        decreases n - pos,
    {
        let ghost t = s@.skip(pos as int);
        let mut e: usize = pos;
        while e < n && s[e] != RECORD_END
            invariant
                n == s@.len(),
                pos <= e <= n,
                forall|i: int| pos <= i < e ==> #[trigger] s@[i] != RECORD_END,
            decreases n - e,
        {
            e = e + 1;
        }
        proof {
            assert forall|i: int| 0 <= i < e - pos implies #[trigger] t[i] != RECORD_END by {
                assert(t[i] == s@[pos + i]);
            }
        }
        if e == n {
            proof {
                lemma_line_end_bounds(t, 0);
                if line_end(t, 0) < t.len() {
                    assert(t[line_end(t, 0)] != RECORD_END);
                }
            }
            return None;
        }
        proof {
            assert(t[e - pos] == s@[e as int]);
            lemma_line_end(t, 0, e - pos);
        }
        let line = copy_range(s, pos, e + 1);
        proof {
            assert(t.take(e - pos + 1) =~= line@);
            assert(t.skip(e - pos + 1) =~= s@.skip(e + 1));
        }
        match parse_record(&line) {
            None => {
                return None;
            },
            Some(rec) => {
                let ghost prev = recs@;
                recs.push(rec);
                proof {
                    assert forall|x: Seq<(u64, Statistics)>| true implies prev + (seq![rec] + x)
                        =~= recs@ + x by {
                    }
                }
            },
        }
        pos = e + 1;
    }
    proof {
        assert(s@.skip(pos as int).len() == 0);
        assert(recs@ + Seq::<(u64, Statistics)>::empty() =~= recs@);
    }
    Some(recs)
}

} // verus!
