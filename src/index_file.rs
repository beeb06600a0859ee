use vstd::prelude::*;

use crate::radix::{all_digits, digit_value, number_digits, number_of, parse_number, radix_value};

verus! {

/// The lowercase hexadecimal digit for `d < 16`.
pub open spec fn hex_char(d: nat) -> u8 {
    if d < 10 {
        (48 + d) as u8
    } else {
        (87 + d) as u8
    }
}

/// `n` in lowercase hexadecimal, without prefix or leading zeros.
pub open spec fn hex_text(n: nat) -> Seq<u8>
    decreases n,
{
    if n < 16 {
        seq![hex_char(n)]
    } else {
        hex_text(n / 16).push(hex_char(n % 16))
    }
}

/// The index file for `list`: one hexadecimal line per position, each
/// ended by a newline.
pub open spec fn index_text(list: Seq<u64>) -> Seq<u8>
    decreases list.len(),
{
    if list.len() == 0 {
        seq![]
    } else {
        hex_text(list[0] as nat).push(10u8) + index_text(list.drop_first())
    }
}

/// Where the line that starts at `start` ends: the first newline at or
/// after `start`, or the end of the text.
pub open spec fn line_end(t: Seq<u8>, start: int) -> int
    decreases t.len() - start,
{
    if start < 0 || start >= t.len() {
        t.len() as int
    } else if t[start] == 10 {
        start
    } else {
        line_end(t, start + 1)
    }
}

pub proof fn lemma_line_end_bounds(t: Seq<u8>, start: int)
    requires
        0 <= start <= t.len(),
    ensures
        start <= line_end(t, start) <= t.len(),
    decreases t.len() - start,
{
    if start < t.len() && t[start] != 10 {
        lemma_line_end_bounds(t, start + 1);
    }
}

/// A line without one trailing carriage return.
pub open spec fn strip_cr(line: Seq<u8>) -> Seq<u8> {
    if line.len() > 0 && line.last() == 13 {
        line.drop_last()
    } else {
        line
    }
}

/// A malformed line of an index file: its number, from 1, and its text.
pub struct IndexLineError {
    pub line_no: u64,
    pub line: Vec<u8>,
}

/// The positions that the lines of `t` from byte `start` on hold, the first
/// of them line `line_no`; or the first line that is not a hexadecimal
/// number, with its number.
pub open spec fn parse_index_from(t: Seq<u8>, start: int, line_no: nat) -> Result<
    Seq<u64>,
    (nat, Seq<u8>),
>
    decreases (if 0 <= start < t.len() {
        t.len() - start
    } else {
        0
    }),
{
    if start < 0 || start >= t.len() {
        Ok(seq![])
    } else {
        let end = line_end(t, start);
        proof {
            lemma_line_end_bounds(t, start);
        }
        let line = strip_cr(t.subrange(start, end));
        match number_of(line, 16) {
            None => Err((line_no, line)),
            Some(v) => match parse_index_from(t, end + 1, line_no + 1) {
                Ok(rest) => Ok(seq![v] + rest),
                Err(e) => Err(e),
            },
        }
    }
}

/// The positions that index file `t` holds.
pub open spec fn parse_index(t: Seq<u8>) -> Result<Seq<u64>, (nat, Seq<u8>)> {
    parse_index_from(t, 0, 1)
}

proof fn lemma_hex_text(n: nat)
    ensures
        hex_text(n).len() > 0,
        all_digits(hex_text(n), 16),
        forall|i: int| 0 <= i < hex_text(n).len() ==> {
            let c = #[trigger] hex_text(n)[i];
            c != 10 && c != 13 && c != 43
        },
        radix_value(hex_text(n), 16) == n,
    decreases n,
{
    let t = hex_text(n);
    if n >= 16 {
        lemma_hex_text(n / 16);
        assert(t.drop_last() =~= hex_text(n / 16));
        assert(forall|i: int| 0 <= i < t.len() - 1 ==> t[i] == hex_text(n / 16)[i]);
        assert(t.last() == hex_char(n % 16));
        assert(digit_value(hex_char(n % 16)) == n % 16);
        assert(radix_value(t, 16) == radix_value(hex_text(n / 16), 16) * 16 + digit_value(t.last()));
        assert((n / 16) * 16 + n % 16 == n);
    } else {
        assert(t.drop_last() =~= Seq::<u8>::empty());
        assert(radix_value(t, 16) == radix_value(t.drop_last(), 16) * 16 + digit_value(t.last()));
    }
}

proof fn lemma_line_end_at(t: Seq<u8>, s: int, m: int)
    requires
        0 <= s <= m < t.len(),
        t[m] == 10,
        forall|j: int| s <= j < m ==> t[j] != 10,
    ensures
        line_end(t, s) == m,
    decreases m - s,
{
    if s < m {
        lemma_line_end_at(t, s + 1, m);
    }
}

proof fn lemma_parse_index_suffix(t: Seq<u8>, s: int, list: Seq<u64>, line_no: nat)
    requires
        0 <= s <= t.len(),
        t.subrange(s, t.len() as int) == index_text(list),
    ensures
        parse_index_from(t, s, line_no) == Ok::<Seq<u64>, (nat, Seq<u8>)>(list),
    decreases list.len(),
{
    if list.len() == 0 {
        assert(t.subrange(s, t.len() as int).len() == 0);
        assert(list =~= Seq::<u64>::empty());
    } else {
        let a = hex_text(list[0] as nat);
        let rest = list.drop_first();
        lemma_hex_text(list[0] as nat);
        let m = s + a.len();
        let u = t.subrange(s, t.len() as int);
        let b = a.push(10u8);
        assert(u == b + index_text(rest));
        assert(u.len() == a.len() + 1 + index_text(rest).len());
        assert forall|j: int| s <= j < m implies t[j] != 10 by {
            assert(t[j] == u[j - s]);
            assert(u[j - s] == b[j - s]);
        }
        assert(t[m] == u[m - s]);
        assert(u[m - s] == b[m - s]);
        lemma_line_end_at(t, s, m);
        assert(t.subrange(s, m) =~= a);
        assert(a.last() == a[a.len() - 1]);
        assert(strip_cr(a) == a);
        assert(number_digits(a) == a);
        assert(number_of(a, 16) == Some(list[0]));
        assert(t.subrange(m + 1, t.len() as int) =~= u.subrange(a.len() as int + 1, u.len() as int));
        assert(u.subrange(a.len() as int + 1, u.len() as int) =~= index_text(rest));
        lemma_parse_index_suffix(t, m + 1, rest, line_no + 1);
        assert(seq![list[0]] + rest =~= list);
        assert(line_end(t, s) == m);
        assert(strip_cr(t.subrange(s, line_end(t, s))) == a);
        assert(parse_index_from(t, s, line_no) == Ok::<Seq<u64>, (nat, Seq<u8>)>(seq![list[0]] + rest));
    }
}

/// Writing an index file and reading it back gives the same positions.
pub proof fn lemma_index_round_trip(list: Seq<u64>)
    ensures
        parse_index(index_text(list)) == Ok::<Seq<u64>, (nat, Seq<u8>)>(list),
{
    let t = index_text(list);
    assert(t.subrange(0, t.len() as int) =~= t);
    lemma_parse_index_suffix(t, 0, list, 1);
}

/// The hexadecimal text of `n`.
pub fn hex_digits(n: u64) -> (r: Vec<u8>)
    ensures
        r@ == hex_text(n as nat),
{
    let mut suffix: Vec<u8> = Vec::new();
    let mut q: u64 = n;
    while q >= 16
        invariant
            hex_text(n as nat) == hex_text(q as nat) + suffix@,
        decreases q,
    {
        let d: u64 = q % 16;
        let c: u8 = if d < 10 { (48 + d) as u8 } else { (87 + d) as u8 };
        let ghost old_suffix = suffix@;
        suffix.insert(0, c);
        assert(hex_text(q as nat) == hex_text((q / 16) as nat).push(c));
        assert(hex_text(q as nat) + old_suffix =~= hex_text((q / 16) as nat) + suffix@);
        q = q / 16;
    }
    let c: u8 = if q < 10 { (48 + q) as u8 } else { (87 + q) as u8 };
    suffix.insert(0, c);
    assert(hex_text(n as nat) =~= suffix@);
    suffix
}

proof fn lemma_index_text_push(list: Seq<u64>, x: u64)
    ensures
        index_text(list.push(x)) == index_text(list) + hex_text(x as nat).push(10u8),
    decreases list.len(),
{
    if list.len() == 0 {
        assert(list.push(x).drop_first() =~= Seq::<u64>::empty());
        assert(index_text(list.push(x)) =~= hex_text(x as nat).push(10u8) + index_text(Seq::<u64>::empty()));
    } else {
        assert(list.push(x).drop_first() =~= list.drop_first().push(x));
        lemma_index_text_push(list.drop_first(), x);
        assert(index_text(list.push(x)) =~= index_text(list) + hex_text(x as nat).push(10u8));
    }
}

/// Writes the index file for `positions`: each in lowercase hexadecimal,
/// without prefix, on a line of its own ended by a newline.
pub fn index_write(positions: &Vec<u64>) -> (r: Vec<u8>)
    ensures
        r@ == index_text(positions@),
{
    let mut out: Vec<u8> = Vec::new();
    let mut i: usize = 0;
    while i < positions.len()
        invariant
            i <= positions.len(),
            out@ == index_text(positions@.take(i as int)),
        decreases positions.len() - i,
    {
        let mut digits = hex_digits(positions[i]);
        proof {
            lemma_index_text_push(positions@.take(i as int), positions@[i as int]);
            assert(positions@.take(i as int).push(positions@[i as int]) =~= positions@.take(
                i as int + 1,
            ));
        }
        out.append(&mut digits);
        out.push(10u8);
        i = i + 1;
    }
    assert(positions@.take(i as int) =~= positions@);
    out
}

/// Reads an index file: one hexadecimal number per line; a last line may
/// lack its newline, and a carriage return before a newline is dropped.
/// Fails on the first line that is not a number that fits in 64 bits.
pub fn index_read(text: &[u8]) -> (r: Result<Vec<u64>, IndexLineError>)
    ensures
        match parse_index(text@) {
            Ok(list) => r is Ok && r->Ok_0@ == list,
            Err((n, line)) => r is Err && r->Err_0.line_no == n && r->Err_0.line@ == line,
        },
{
    let mut out: Vec<u64> = Vec::new();
    let mut start: usize = 0;
    let mut lines_done: usize = 0;
    let len: usize = text.len();
    while start < len
        invariant
            len == text@.len(),
            start <= len,
            lines_done <= start,
            parse_index(text@) == match parse_index_from(text@, start as int, (lines_done + 1) as nat) {
                Ok(rest) => Ok(out@ + rest),
                Err(e) => Err::<Seq<u64>, (nat, Seq<u8>)>(e),
            },
        decreases len - start,
    {
        let mut end: usize = start;
        while end < len && text[end] != 10
            invariant
                start <= end <= len,
                len == text@.len(),
                line_end(text@, start as int) == line_end(text@, end as int),
            decreases len - end,
        {
            end = end + 1;
        }
        let line_len: usize = if end > start && text[end - 1] == 13 { end - start - 1 } else { end - start };
        let line = &text[start..start + line_len];
        assert(line@ == strip_cr(text@.subrange(start as int, end as int)));
        match parse_number(line, 16) {
            None => {
                let line_no: u64 = (lines_done + 1) as u64;
                return Err(IndexLineError { line_no, line: vstd::slice::slice_to_vec(line) });
            },
            Some(v) => {
                let ghost before = out@;
                out.push(v);
                proof {
                    let tail = parse_index_from(text@, end + 1, (lines_done + 2) as nat);
                    if tail is Ok {
                        assert(before + (seq![v] + tail->Ok_0) =~= out@ + tail->Ok_0);
                    }
                }
            },
        }
        if end == len {
            start = len;
        } else {
            start = end + 1;
        }
        lines_done = lines_done + 1;
    }
    assert(out@ + Seq::<u64>::empty() =~= out@);
    Ok(out)
}

} // verus!
