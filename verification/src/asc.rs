//! Parser for one OS Terrain 50 `.asc` tile file.
//!
//! The file is CRLF-separated text: up to a handful of metadata lines,
//! then 200 data lines of 200 space-separated elevation tokens, supplied
//! north to south.  The lines are reversed so that the first kept row is
//! the southernmost, rows that do not hold exactly 200 tokens are
//! metadata and are skipped, and each token is turned into decimetres:
//! a token with a decimal point loses the point ("12.3" reads 123), one
//! without gains a zero ("12" reads 120), and the result must fit i16.

use vstd::prelude::*;
use crate::OsError;
use crate::writer::TileSamples;

verus! {

/// Decimal digit byte.
pub open spec fn is_digit_b(b: u8) -> bool {
    48 <= b <= 57
}

/// Every byte is a decimal digit.
pub open spec fn all_digits_b(s: Seq<u8>) -> bool {
    forall|i: int| 0 <= i < s.len() ==> is_digit_b(#[trigger] s[i])
}

/// Value of a run of decimal digit bytes.
pub open spec fn digits_val_b(s: Seq<u8>) -> int
    decreases s.len(),
{
    if s.len() == 0 {
        0
    } else {
        10 * digits_val_b(s.drop_last()) + (s.last() - 48)
    }
}

/// Index of the first CRLF pair at or after `i`, or the length.
pub open spec fn next_crlf(s: Seq<u8>, i: int) -> int
    decreases s.len() - i,
{
    if 0 <= i && i + 2 <= s.len() {
        if s[i] == 13 && s[i + 1] == 10 {
            i
        } else {
            next_crlf(s, i + 1)
        }
    } else {
        s.len() as int
    }
}

/// The first CRLF lies between `i` and the end.
pub proof fn lemma_next_crlf_bounds(s: Seq<u8>, i: int)
    requires
        0 <= i <= s.len(),
    ensures
        i <= next_crlf(s, i) <= s.len(),
    decreases s.len() - i,
{
    if i + 2 <= s.len() && !(s[i] == 13 && s[i + 1] == 10) {
        lemma_next_crlf_bounds(s, i + 1);
    }
}

/// The lines of the text from position `i` on, split on CRLF (empty
/// pieces kept, as with two CRLF in a row).
pub open spec fn spec_lines(s: Seq<u8>, i: int) -> Seq<Seq<u8>>
    decreases s.len() + 2 - i,
    via spec_lines_decreases
{
    if 0 <= i <= s.len() {
        let j = next_crlf(s, i);
        if j + 2 <= s.len() {
            seq![s.subrange(i, j)] + spec_lines(s, j + 2)
        } else {
            seq![s.subrange(i, s.len() as int)]
        }
    } else {
        Seq::empty()
    }
}

#[via_fn]
proof fn spec_lines_decreases(s: Seq<u8>, i: int) {
    if 0 <= i <= s.len() {
        lemma_next_crlf_bounds(s, i);
    }
}

/// Index of the first space at or after `i`, or the length.
pub open spec fn next_space(s: Seq<u8>, i: int) -> int
    decreases s.len() - i,
{
    if 0 <= i < s.len() {
        if s[i] == 32 {
            i
        } else {
            next_space(s, i + 1)
        }
    } else {
        s.len() as int
    }
}

/// The first space lies between `i` and the end.
pub proof fn lemma_next_space_bounds(s: Seq<u8>, i: int)
    requires
        0 <= i <= s.len(),
    ensures
        i <= next_space(s, i) <= s.len(),
    decreases s.len() - i,
{
    if i < s.len() && s[i] != 32 {
        lemma_next_space_bounds(s, i + 1);
    }
}

/// The tokens of a line from position `i` on, split on single spaces
/// (empty tokens kept).
pub open spec fn spec_toks(s: Seq<u8>, i: int) -> Seq<Seq<u8>>
    decreases s.len() + 1 - i,
    via spec_toks_decreases
{
    if 0 <= i <= s.len() {
        let j = next_space(s, i);
        if j < s.len() {
            seq![s.subrange(i, j)] + spec_toks(s, j + 1)
        } else {
            seq![s.subrange(i, s.len() as int)]
        }
    } else {
        Seq::empty()
    }
}

#[via_fn]
proof fn spec_toks_decreases(s: Seq<u8>, i: int) {
    if 0 <= i <= s.len() {
        lemma_next_space_bounds(s, i);
    }
}

/// The token lists of the usable rows (exactly 200 tokens) among the
/// lines from index `i` on.
pub open spec fn usable_from(lines: Seq<Seq<u8>>, i: int) -> Seq<Seq<Seq<u8>>>
    decreases lines.len() - i,
{
    if 0 <= i < lines.len() {
        let tk = spec_toks(lines[i], 0);
        (if tk.len() == 200 {
            seq![tk]
        } else {
            Seq::empty()
        }) + usable_from(lines, i + 1)
    } else {
        Seq::empty()
    }
}

/// The usable data rows of a tile file, south to north: the CRLF lines
/// reversed, each split on spaces, keeping rows of exactly 200 tokens.
pub open spec fn usable_rows(text: Seq<u8>) -> Seq<Seq<Seq<u8>>> {
    usable_from(spec_lines(text, 0).reverse(), 0)
}

/// The token holds a decimal point.
pub open spec fn has_dot(t: Seq<u8>) -> bool
    decreases t.len(),
{
    if t.len() == 0 {
        false
    } else {
        t.last() == 46 || has_dot(t.drop_last())
    }
}

/// The token with every decimal point removed.
pub open spec fn strip_dot(t: Seq<u8>) -> Seq<u8>
    decreases t.len(),
{
    if t.len() == 0 {
        Seq::empty()
    } else if t.last() == 46 {
        strip_dot(t.drop_last())
    } else {
        strip_dot(t.drop_last()).push(t.last())
    }
}

/// The digit text whose value the token encodes: the token without its
/// decimal point, or with a trailing zero when it had none.
pub open spec fn token_digits(t: Seq<u8>) -> Seq<u8> {
    if has_dot(t) {
        strip_dot(t)
    } else {
        t.push(48)
    }
}

/// The i16 value of a signed digit run, as `str::parse` reads it: an
/// optional sign, then one or more digits, within the i16 range.
pub open spec fn spec_parse_i16(dg: Seq<u8>) -> Option<int> {
    if dg.len() == 0 {
        None
    } else {
        let neg = dg[0] == 45;
        let body = if dg[0] == 45 || dg[0] == 43 {
            dg.drop_first()
        } else {
            dg
        };
        if body.len() == 0 || !all_digits_b(body) {
            None
        } else {
            let v = if neg {
                -digits_val_b(body)
            } else {
                digits_val_b(body)
            };
            if -32768 <= v <= 32767 {
                Some(v)
            } else {
                None
            }
        }
    }
}

/// The decimetre value of one elevation token.
pub open spec fn token_dm(t: Seq<u8>) -> Option<int> {
    spec_parse_i16(token_digits(t))
}

/// Every token of every row parses to a decimetre value.
pub open spec fn rows_ok(rows: Seq<Seq<Seq<u8>>>) -> bool {
    forall|r: int, c: int|
        0 <= r < rows.len() && 0 <= c < rows[r].len() ==> (#[trigger] token_dm(rows[r][c])) is Some
}

proof fn lemma_digits_val_b_nonneg(s: Seq<u8>)
    requires
        all_digits_b(s),
    ensures
        digits_val_b(s) >= 0,
    decreases s.len(),
{
    if s.len() > 0 {
        assert(all_digits_b(s.drop_last()));
        lemma_digits_val_b_nonneg(s.drop_last());
    }
}

/// A digit run is worth at least any of its prefixes.
proof fn lemma_digits_val_b_prefix_le(s: Seq<u8>, j: int)
    requires
        all_digits_b(s),
        0 <= j <= s.len(),
    ensures
        digits_val_b(s.subrange(0, j)) <= digits_val_b(s),
        digits_val_b(s) >= 0,
    decreases s.len() - j,
{
    lemma_digits_val_b_nonneg(s);
    if j == s.len() {
        assert(s.subrange(0, j) =~= s);
    } else {
        assert(s.subrange(0, j + 1).drop_last() =~= s.subrange(0, j));
        assert(all_digits_b(s.subrange(0, j)));
        lemma_digits_val_b_nonneg(s.subrange(0, j));
        assert(digits_val_b(s.subrange(0, j + 1)) == 10 * digits_val_b(s.subrange(0, j)) + (s[j]
            - 48));
        lemma_digits_val_b_prefix_le(s, j + 1);
    }
}

/// A token without a decimal point survives the stripping unchanged.
proof fn lemma_strip_dot_nodot(t: Seq<u8>)
    requires
        !has_dot(t),
    ensures
        strip_dot(t) == t,
    decreases t.len(),
{
    if t.len() > 0 {
        lemma_strip_dot_nodot(t.drop_last());
        assert(strip_dot(t) =~= t);
    } else {
        assert(strip_dot(t) =~= t);
    }
}

/// A copy of the bytes of `v` between two indices.
fn subvec_u8(v: &Vec<u8>, from: usize, to: usize) -> (r: Vec<u8>)
    requires
        from <= to <= v@.len(),
    ensures
        r@ == v@.subrange(from as int, to as int),
{
    let mut r: Vec<u8> = Vec::new();
    let mut t = from;
    while t < to
        invariant
            from <= t <= to <= v@.len(),
            r@ =~= v@.subrange(from as int, t as int),
        decreases to - t,
    {
        r.push(v[t]);
        t += 1;
    }
    proof {
        assert(r@ =~= v@.subrange(from as int, to as int));
    }
    r
}

/// Index of the first CRLF pair at or after `from`.
fn find_crlf(t: &Vec<u8>, from: usize) -> (r: usize)
    requires
        from <= t@.len(),
    ensures
        r == next_crlf(t@, from as int),
        from <= r <= t@.len(),
{
    let n = t.len();
    let mut i = from;
    while n >= 2 && i <= n - 2
        invariant
            from <= i,
            i <= n,
            n == t@.len(),
            next_crlf(t@, from as int) == next_crlf(t@, i as int),
        decreases n - i,
    {
        if t[i] == 13 && t[i + 1] == 10 {
            return i;
        }
        i += 1;
    }
    n
}

/// Index of the first space at or after `from`.
fn find_space(t: &Vec<u8>, from: usize) -> (r: usize)
    requires
        from <= t@.len(),
    ensures
        r == next_space(t@, from as int),
        from <= r <= t@.len(),
{
    let n = t.len();
    let mut i = from;
    while i < n
        invariant
            from <= i <= n,
            n == t@.len(),
            next_space(t@, from as int) == next_space(t@, i as int),
        decreases n - i,
    {
        if t[i] == 32 {
            return i;
        }
        i += 1;
    }
    n
}

/// The decimetre value of one token, or `None` where `token_dm` has
/// none.
fn token_to_dm(tok: &Vec<u8>) -> (r: Option<i16>)
    ensures
        r is Some <==> token_dm(tok@) is Some,
        r matches Some(v) ==> token_dm(tok@) == Some(v as int),
{
    // The digit text: drop every '.', or append '0' when there is none.
    let mut dg: Vec<u8> = Vec::new();
    let mut saw_dot = false;
    let n = tok.len();
    let mut i: usize = 0;
    while i < n
        invariant
            i <= n,
            n == tok@.len(),
            dg@ == strip_dot(tok@.subrange(0, i as int)),
            saw_dot == has_dot(tok@.subrange(0, i as int)),
        decreases n - i,
    {
        let b = tok[i];
        proof {
            assert(tok@.subrange(0, i as int + 1).drop_last() =~= tok@.subrange(0, i as int));
            assert(tok@.subrange(0, i as int + 1).last() == tok@[i as int]);
        }
        if b == 46 {
            saw_dot = true;
        } else {
            dg.push(b);
        }
        i += 1;
    }
    proof {
        assert(tok@.subrange(0, n as int) =~= tok@);
    }
    if !saw_dot {
        proof {
            lemma_strip_dot_nodot(tok@);
        }
        dg.push(48);
    }
    proof {
        assert(dg@ == token_digits(tok@));
    }

    // Sign, then digits, within the i16 range.
    let m = dg.len();
    if m == 0 {
        return None;
    }
    let neg = dg[0] == 45;
    let start: usize = if dg[0] == 45 || dg[0] == 43 {
        1
    } else {
        0
    };
    let ghost body: Seq<u8> = dg@.subrange(start as int, m as int);
    proof {
        if start == 0 {
            assert(body =~= dg@);
        }
        if dg@[0] == 45 || dg@[0] == 43 {
            assert(body =~= dg@.drop_first());
        }
    }
    if start == m {
        return None;
    }
    let mut acc: u32 = 0;
    let mut k: usize = start;
    while k < m
        invariant
            start <= k <= m,
            m == dg@.len(),
            start < m,
            dg@ == token_digits(tok@),
            neg == (dg@[0] == 45),
            start == (if dg@[0] == 45 || dg@[0] == 43 { 1int } else { 0int }),
            body == dg@.subrange(start as int, m as int),
            body == (if dg@[0] == 45 || dg@[0] == 43 { dg@.drop_first() } else { dg@ }),
            forall|ii: int| start <= ii < k ==> is_digit_b(#[trigger] dg@[ii]),
            acc == digits_val_b(dg@.subrange(start as int, k as int)),
            acc <= 32768,
        decreases m - k,
    {
        let b = dg[k];
        if !(48 <= b && b <= 57) {
            proof {
                assert(body[k as int - start] == dg@[k as int]);
                assert(!all_digits_b(body));
            }
            return None;
        }
        proof {
            assert(dg@.subrange(start as int, k as int + 1).drop_last() =~= dg@.subrange(
                start as int,
                k as int,
            ));
            assert(dg@.subrange(start as int, k as int + 1).last() == dg@[k as int]);
        }
        acc = acc * 10 + (b - 48) as u32;
        k += 1;
        if acc > 32768 {
            proof {
                if all_digits_b(body) {
                    assert(dg@.subrange(start as int, k as int) =~= body.subrange(
                        0,
                        k as int - start,
                    ));
                    lemma_digits_val_b_prefix_le(body, k as int - start);
                }
            }
            return None;
        }
    }
    proof {
        assert(dg@.subrange(start as int, m as int) == body);
        assert forall|ii: int| 0 <= ii < body.len() implies is_digit_b(#[trigger] body[ii]) by {
            assert(body[ii] == dg@[start + ii]);
        }
        assert(all_digits_b(body));
    }
    if neg {
        Some((-(acc as i32)) as i16)
    } else {
        if acc > 32767 {
            return None;
        }
        Some(acc as i16)
    }
}

/// `o` is exactly what the token reads as.
pub open spec fn val_matches(o: Option<i16>, t: Seq<u8>) -> bool {
    match o {
        Some(v) => token_dm(t) == Some(v as int),
        None => token_dm(t) is None,
    }
}

/// The values of every token of one line, in order.
fn row_values(lv: &Vec<u8>) -> (r: Vec<Option<i16>>)
    ensures
        r@.len() == spec_toks(lv@, 0).len(),
        forall|k: int| 0 <= k < r@.len() ==> val_matches(#[trigger] r@[k], spec_toks(lv@, 0)[k]),
{
    let ghost tks = spec_toks(lv@, 0);
    let n = lv.len();
    let mut out: Vec<Option<i16>> = Vec::new();
    let ghost mut tkpref: Seq<Seq<u8>> = Seq::empty();
    let mut cur: usize = 0;
    let mut j = find_space(lv, cur);
    proof {
        assert(tks =~= tkpref + spec_toks(lv@, 0));
    }
    while j < n
        invariant
            n == lv@.len(),
            cur <= n,
            j == next_space(lv@, cur as int),
            cur <= j <= n,
            tks == spec_toks(lv@, 0),
            tks == tkpref + spec_toks(lv@, cur as int),
            out@.len() == tkpref.len(),
            forall|k: int| 0 <= k < out@.len() ==> val_matches(#[trigger] out@[k], tkpref[k]),
        decreases n - cur,
    {
        let tokv = subvec_u8(lv, cur, j);
        let v = token_to_dm(&tokv);
        out.push(v);
        proof {
            assert(spec_toks(lv@, cur as int) == seq![lv@.subrange(cur as int, j as int)]
                + spec_toks(lv@, j as int + 1));
            assert(tkpref + spec_toks(lv@, cur as int) =~= tkpref.push(tokv@) + spec_toks(
                lv@,
                j as int + 1,
            ));
            tkpref = tkpref.push(tokv@);
        }
        cur = j + 1;
        j = find_space(lv, cur);
    }
    // The final token runs to the end of the line.
    let tokv = subvec_u8(lv, cur, n);
    let v = token_to_dm(&tokv);
    out.push(v);
    proof {
        assert(spec_toks(lv@, cur as int) == seq![lv@.subrange(cur as int, n as int)]);
        assert(tkpref + spec_toks(lv@, cur as int) =~= tkpref.push(tokv@));
        tkpref = tkpref.push(tokv@);
        assert(tks == tkpref);
    }
    out
}

/// Parses one `.asc` tile file into its 40 000 decimetre samples, row
/// major, south to north, west to east.  A malformed token in a usable
/// row is a `ParseError`; other than exactly 200 usable rows is a
/// `ShortTile`.
pub fn parse_asc_tile(text: &Vec<u8>) -> (r: Result<TileSamples, OsError>)
    ensures
        ({
            let rows = usable_rows(text@);
            match r {
                Ok(ts) => {
                    &&& rows_ok(rows)
                    &&& rows.len() == 200
                    &&& ts.wf()
                    &&& forall|i: int, c: int|
                        0 <= i < 200 && 0 <= c < 200 ==> (#[trigger] token_dm(rows[i][c])) == Some(
                            ts.samples@[200 * i + c] as int,
                        )
                },
                Err(e) => {
                    &&& (e == OsError::ParseError <==> !rows_ok(rows))
                    &&& (e == OsError::ShortTile <==> rows_ok(rows) && rows.len() != 200)
                    &&& (e == OsError::ParseError || e == OsError::ShortTile)
                },
            }
        }),
{
    let n = text.len();

    // Split into CRLF-separated line ranges.
    let mut ranges: Vec<(usize, usize)> = Vec::new();
    let ghost mut done: Seq<Seq<u8>> = Seq::empty();
    let mut cur: usize = 0;
    let mut j = find_crlf(text, 0);
    proof {
        assert(spec_lines(text@, 0) =~= done + spec_lines(text@, 0));
    }
    while n >= 2 && j <= n - 2
        invariant
            n == text@.len(),
            cur <= n,
            j == next_crlf(text@, cur as int),
            cur <= j <= n,
            spec_lines(text@, 0) == done + spec_lines(text@, cur as int),
            ranges@.len() == done.len(),
            forall|k: int|
                0 <= k < ranges@.len() ==> 0 <= (#[trigger] ranges@[k]).0 <= ranges@[k].1 <= n
                    && done[k] == text@.subrange(ranges@[k].0 as int, ranges@[k].1 as int),
        decreases n + 2 - cur,
    {
        ranges.push((cur, j));
        proof {
            assert(spec_lines(text@, cur as int) == seq![text@.subrange(cur as int, j as int)]
                + spec_lines(text@, j as int + 2));
            assert(done + spec_lines(text@, cur as int) =~= done.push(
                text@.subrange(cur as int, j as int),
            ) + spec_lines(text@, j as int + 2));
            done = done.push(text@.subrange(cur as int, j as int));
        }
        cur = j + 2;
        j = find_crlf(text, cur);
    }
    ranges.push((cur, n));
    proof {
        assert(spec_lines(text@, cur as int) == seq![text@.subrange(cur as int, n as int)]);
        assert(done + spec_lines(text@, cur as int) =~= done.push(
            text@.subrange(cur as int, n as int),
        ));
        done = done.push(text@.subrange(cur as int, n as int));
        assert(spec_lines(text@, 0) == done);
    }

    // Walk the lines in reverse (south to north), keeping the usable
    // rows and their decimetre values.
    let ghost rl: Seq<Seq<u8>> = spec_lines(text@, 0).reverse();
    let count = ranges.len();
    let mut samples: Vec<i16> = Vec::new();
    let ghost mut upref: Seq<Seq<Seq<u8>>> = Seq::empty();
    let mut ii: usize = 0;
    proof {
        assert(usable_from(rl, 0) =~= upref + usable_from(rl, 0));
    }
    while ii < count
        invariant
            n == text@.len(),
            count == ranges@.len(),
            count == done.len(),
            done == spec_lines(text@, 0),
            rl == spec_lines(text@, 0).reverse(),
            rl.len() == count,
            forall|k: int|
                0 <= k < ranges@.len() ==> 0 <= (#[trigger] ranges@[k]).0 <= ranges@[k].1 <= n
                    && done[k] == text@.subrange(ranges@[k].0 as int, ranges@[k].1 as int),
            ii <= count,
            usable_from(rl, 0) == upref + usable_from(rl, ii as int),
            samples@.len() == 200 * upref.len(),
            forall|rr: int|
                0 <= rr < upref.len() ==> (#[trigger] upref[rr]).len() == 200,
            forall|rr: int, c: int|
                0 <= rr < upref.len() && 0 <= c < 200 ==> (#[trigger] token_dm(upref[rr][c]))
                    == Some(samples@[200 * rr + c] as int),
        decreases count - ii,
    {
        let (lo, hi) = ranges[count - 1 - ii];
        let lv = subvec_u8(text, lo, hi);
        proof {
            assert(done.reverse()[ii as int] == done[count - 1 - ii as int]);
            assert(lv@ == rl[ii as int]);
        }
        let vals = row_values(&lv);
        if vals.len() == 200 {
            proof {
                assert(usable_from(rl, ii as int) == seq![spec_toks(rl[ii as int], 0)]
                    + usable_from(rl, ii as int + 1));
            }
            let ghost tk = spec_toks(lv@, 0);
            let ghost old_len = samples@.len();
            let mut c: usize = 0;
            while c < 200
                invariant
                    c <= 200,
                    vals@.len() == 200,
                    tk == spec_toks(lv@, 0),
                    tk.len() == 200,
                    rl == spec_lines(text@, 0).reverse(),
                    0 <= ii < rl.len(),
                    tk == spec_toks(rl[ii as int], 0),
                    usable_from(rl, 0) == upref + usable_from(rl, ii as int),
                    usable_from(rl, ii as int) == seq![tk] + usable_from(rl, ii as int + 1),
                    forall|k: int|
                        0 <= k < 200 ==> val_matches(#[trigger] vals@[k], tk[k]),
                    old_len == 200 * upref.len(),
                    samples@.len() == old_len + c,
                    forall|rr: int, cc: int|
                        0 <= rr < upref.len() && 0 <= cc < 200 ==> (#[trigger] token_dm(
                            upref[rr][cc],
                        )) == Some(samples@[200 * rr + cc] as int),
                    forall|cc: int|
                        0 <= cc < c ==> (#[trigger] token_dm(tk[cc])) == Some(
                            samples@[old_len + cc] as int,
                        ),
                decreases 200 - c,
            {
                match vals[c] {
                    Some(v) => {
                        samples.push(v);
                    },
                    None => {
                        proof {
                            // This usable row holds a malformed token.
                            let bad = upref.len() as int;
                            let rows = usable_rows(text@);
                            assert(rows == upref + (seq![tk] + usable_from(rl, ii as int + 1)));
                            assert(rows.len() >= bad + 1);
                            assert(rows[bad] == (seq![tk] + usable_from(rl, ii as int + 1))[0]);
                            assert(rows[bad] == tk);
                            assert(token_dm(rows[bad][c as int]) is None);
                            assert(!rows_ok(rows));
                        }
                        return Err(OsError::ParseError);
                    },
                }
                c += 1;
            }
            proof {
                upref = upref.push(tk);
            }
        } else {
            proof {
                assert(usable_from(rl, ii as int) == usable_from(rl, ii as int + 1));
            }
        }
        ii += 1;
    }
    proof {
        assert(usable_from(rl, count as int) == Seq::<Seq<Seq<u8>>>::empty());
        assert(upref + usable_from(rl, count as int) =~= upref);
        assert(usable_rows(text@) == upref);
        assert forall|rr: int, cc: int|
            0 <= rr < upref.len() && 0 <= cc < upref[rr].len() implies (#[trigger] token_dm(
            upref[rr][cc],
        )) is Some by {
            assert(token_dm(upref[rr][cc]) == Some(samples@[200 * rr + cc] as int));
        }
        assert(rows_ok(usable_rows(text@)));
    }
    let rows_found = samples.len() / 200;
    if rows_found != 200 {
        proof {
            vstd::arithmetic::div_mod::lemma_div_multiples_vanish(upref.len() as int, 200);
            assert(samples@.len() / 200 == upref.len());
        }
        return Err(OsError::ShortTile);
    }
    proof {
        vstd::arithmetic::div_mod::lemma_div_multiples_vanish(upref.len() as int, 200);
        assert(upref.len() == 200);
    }
    Ok(TileSamples { samples })
}

} // verus!
