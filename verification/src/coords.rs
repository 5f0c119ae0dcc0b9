//! Decoding of British National Grid coordinate strings into absolute
//! (easting, northing) pairs in metres from the SV origin.
//!
//! Two forms are accepted.  An alphanumeric reference names a 500 km
//! super-tile by its first letter (S, T, N, O, H, J) and a 100 km tile
//! by its second (the 25-letter alphabet without I); the remaining
//! digits split into two equal halves, easting first, each right-padded
//! with zeros to five digits.  A numeric pair is two digit runs
//! separated by spaces and/or commas, each right-padded to five digits
//! (longer runs, such as seven-digit Shetland northings, pass through).

use vstd::prelude::*;
use crate::{OSCoords, OsError};

verus! {

/// Decimal digit test.
pub open spec fn is_digit(c: char) -> bool {
    48 <= c as int <= 57
}

/// Numeric value of a decimal digit character.
pub open spec fn digit_val(c: char) -> int {
    c as int - 48
}

/// Every character is a decimal digit.
pub open spec fn all_digits(s: Seq<char>) -> bool {
    forall|i: int| 0 <= i < s.len() ==> is_digit(#[trigger] s[i])
}

/// Value of a run of decimal digits.
pub open spec fn digits_val(s: Seq<char>) -> int
    decreases s.len(),
{
    if s.len() == 0 {
        0
    } else {
        10 * digits_val(s.drop_last()) + digit_val(s.last())
    }
}

/// Ten to the `k`.
pub open spec fn pow10(k: nat) -> int
    decreases k,
{
    if k == 0 {
        1
    } else {
        10 * pow10((k - 1) as nat)
    }
}

/// Value of a digit run right-padded with zeros to five digits.
pub open spec fn padded5(s: Seq<char>) -> int {
    if s.len() >= 5 {
        digits_val(s)
    } else {
        digits_val(s) * pow10((5 - s.len()) as nat)
    }
}

/// The string with every space removed.
pub open spec fn strip_spaces(s: Seq<char>) -> Seq<char>
    decreases s.len(),
{
    if s.len() == 0 {
        Seq::empty()
    } else if s.last() == ' ' {
        strip_spaces(s.drop_last())
    } else {
        strip_spaces(s.drop_last()).push(s.last())
    }
}

/// Easting and northing multipliers of the 500 km super-tile letter.
pub open spec fn super_offsets(c: char) -> Option<(int, int)> {
    if c == 'S' {
        Some((0int, 0int))
    } else if c == 'T' {
        Some((1int, 0int))
    } else if c == 'N' {
        Some((0int, 1int))
    } else if c == 'O' {
        Some((1int, 1int))
    } else if c == 'H' {
        Some((0int, 2int))
    } else if c == 'J' {
        Some((1int, 2int))
    } else {
        None
    }
}

/// Easting and northing multipliers of the 100 km tile letter (the
/// letter I is not used).
pub open spec fn sub_offsets(c: char) -> Option<(int, int)> {
    if c == 'V' {
        Some((0int, 0int))
    } else if c == 'W' {
        Some((1int, 0int))
    } else if c == 'X' {
        Some((2int, 0int))
    } else if c == 'Y' {
        Some((3int, 0int))
    } else if c == 'Z' {
        Some((4int, 0int))
    } else if c == 'Q' {
        Some((0int, 1int))
    } else if c == 'R' {
        Some((1int, 1int))
    } else if c == 'S' {
        Some((2int, 1int))
    } else if c == 'T' {
        Some((3int, 1int))
    } else if c == 'U' {
        Some((4int, 1int))
    } else if c == 'L' {
        Some((0int, 2int))
    } else if c == 'M' {
        Some((1int, 2int))
    } else if c == 'N' {
        Some((2int, 2int))
    } else if c == 'O' {
        Some((3int, 2int))
    } else if c == 'P' {
        Some((4int, 2int))
    } else if c == 'F' {
        Some((0int, 3int))
    } else if c == 'G' {
        Some((1int, 3int))
    } else if c == 'H' {
        Some((2int, 3int))
    } else if c == 'J' {
        Some((3int, 3int))
    } else if c == 'K' {
        Some((4int, 3int))
    } else if c == 'A' {
        Some((0int, 4int))
    } else if c == 'B' {
        Some((1int, 4int))
    } else if c == 'C' {
        Some((2int, 4int))
    } else if c == 'D' {
        Some((3int, 4int))
    } else if c == 'E' {
        Some((4int, 4int))
    } else {
        None
    }
}

/// Separator in a numeric pair: space or comma.
pub open spec fn is_sep(c: char) -> bool {
    c == ' ' || c == ','
}

/// First index at or after `i` holding a non-separator, or the end.
pub open spec fn skip_seps(s: Seq<char>, i: int) -> int
    decreases s.len() - i,
{
    if 0 <= i < s.len() && is_sep(s[i]) {
        skip_seps(s, i + 1)
    } else {
        i
    }
}

/// First index at or after `i` holding a separator, or the end.
pub open spec fn skip_tok(s: Seq<char>, i: int) -> int
    decreases s.len() - i,
{
    if 0 <= i < s.len() && !is_sep(s[i]) {
        skip_tok(s, i + 1)
    } else {
        i
    }
}

/// The meaning of an alphanumeric grid reference (the first character
/// is already known to be a super-tile letter).
pub open spec fn spec_parse_alpha(s: Seq<char>) -> Result<(int, int), OsError> {
    let g = super_offsets(s[0])->Some_0;
    if s.len() < 2 || sub_offsets(s[1]) is None {
        Err(OsError::InvalidCoord)
    } else {
        let sub = sub_offsets(s[1])->Some_0;
        let rest = strip_spaces(s).subrange(2, strip_spaces(s).len() as int);
        let base_e = 500000 * g.0 + 100000 * sub.0;
        let base_n = 500000 * g.1 + 100000 * sub.1;
        if rest.len() == 0 {
            Ok((base_e, base_n))
        } else if rest.len() % 2 != 0 || !all_digits(rest) {
            Err(OsError::InvalidCoord)
        } else {
            let h = rest.len() as int / 2;
            let e = base_e + padded5(rest.subrange(0, h));
            let n = base_n + padded5(rest.subrange(h, rest.len() as int));
            if e > i64::MAX || n > i64::MAX {
                Err(OsError::InvalidCoord)
            } else {
                Ok((e, n))
            }
        }
    }
}

/// The meaning of a numeric pair: exactly two digit runs separated by
/// spaces and/or commas, each right-padded to five digits.
pub open spec fn spec_parse_numeric(s: Seq<char>) -> Result<(int, int), OsError> {
    let i0 = skip_seps(s, 0);
    let i1 = skip_tok(s, i0);
    let i2 = skip_seps(s, i1);
    let i3 = skip_tok(s, i2);
    let i4 = skip_seps(s, i3);
    if i1 == i0 || i3 == i2 || i4 < s.len() {
        Err(OsError::InvalidCoord)
    } else {
        let t1 = s.subrange(i0, i1);
        let t2 = s.subrange(i2, i3);
        if !all_digits(t1) || !all_digits(t2) {
            Err(OsError::InvalidCoord)
        } else {
            let e = padded5(t1);
            let n = padded5(t2);
            if e > i64::MAX || n > i64::MAX {
                Err(OsError::InvalidCoord)
            } else {
                Ok((e, n))
            }
        }
    }
}

/// The meaning of a coordinate string: alphanumeric when it opens with
/// a super-tile letter, numeric otherwise.
pub open spec fn spec_parse_coord(s: Seq<char>) -> Result<(int, int), OsError> {
    if s.len() >= 1 && super_offsets(s[0]) is Some {
        spec_parse_alpha(s)
    } else {
        spec_parse_numeric(s)
    }
}

proof fn lemma_digits_val_nonneg(s: Seq<char>)
    requires
        all_digits(s),
    ensures
        digits_val(s) >= 0,
    decreases s.len(),
{
    if s.len() > 0 {
        assert(all_digits(s.drop_last()));
        lemma_digits_val_nonneg(s.drop_last());
    }
}

proof fn lemma_pow10_pos(k: nat)
    ensures
        pow10(k) >= 1,
    decreases k,
{
    if k > 0 {
        lemma_pow10_pos((k - 1) as nat);
    }
}

/// A digit run is worth at least any of its prefixes.
proof fn lemma_digits_val_prefix_le(s: Seq<char>, j: int)
    requires
        all_digits(s),
        0 <= j <= s.len(),
    ensures
        digits_val(s.subrange(0, j)) <= digits_val(s),
        digits_val(s) >= 0,
    decreases s.len() - j,
{
    lemma_digits_val_nonneg(s);
    if j == s.len() {
        assert(s.subrange(0, j) =~= s);
    } else {
        assert(s.subrange(0, j + 1).drop_last() =~= s.subrange(0, j));
        assert(all_digits(s.subrange(0, j)));
        lemma_digits_val_nonneg(s.subrange(0, j));
        assert(digits_val(s.subrange(0, j + 1)) == 10 * digits_val(s.subrange(0, j)) + digit_val(
            s[j],
        ));
        lemma_digits_val_prefix_le(s, j + 1);
    }
}

/// A padded digit run is never negative.
proof fn lemma_padded5_nonneg(s: Seq<char>)
    requires
        all_digits(s),
    ensures
        padded5(s) >= 0,
        padded5(s) >= digits_val(s),
{
    lemma_digits_val_nonneg(s);
    if s.len() < 5 {
        lemma_pow10_pos((5 - s.len()) as nat);
        assert(digits_val(s) * pow10((5 - s.len()) as nat) >= digits_val(s) * 1)
            by (nonlinear_arith)
            requires pow10((5 - s.len()) as nat) >= 1, digits_val(s) >= 0;
        assert(digits_val(s) * pow10((5 - s.len()) as nat) >= 0) by (nonlinear_arith)
            requires pow10((5 - s.len()) as nat) >= 1, digits_val(s) >= 0;
    }
}

/// Stripping spaces distributes over concatenation.
proof fn lemma_strip_spaces_add(a: Seq<char>, b: Seq<char>)
    ensures
        strip_spaces(a + b) == strip_spaces(a) + strip_spaces(b),
    decreases b.len(),
{
    if b.len() == 0 {
        assert(a + b =~= a);
        assert(strip_spaces(a) + strip_spaces(b) =~= strip_spaces(a));
    } else {
        lemma_strip_spaces_add(a, b.drop_last());
        assert((a + b).drop_last() =~= a + b.drop_last());
        assert((a + b).last() == b.last());
        if b.last() == ' ' {
            assert(strip_spaces(b) == strip_spaces(b.drop_last()));
        } else {
            assert(strip_spaces(a + b) == (strip_spaces(a) + strip_spaces(b.drop_last())).push(
                b.last(),
            ));
            assert((strip_spaces(a) + strip_spaces(b.drop_last())).push(b.last()) =~= strip_spaces(
                a,
            ) + strip_spaces(b.drop_last()).push(b.last()));
        }
    }
}

/// Easting and northing multipliers of a super-tile letter.
fn super_off_exec(c: char) -> (r: Option<(i64, i64)>)
    ensures
        r is Some <==> super_offsets(c) is Some,
        r matches Some(p) ==> super_offsets(c) == Some((p.0 as int, p.1 as int)),
{
    if c == 'S' {
        Some((0, 0))
    } else if c == 'T' {
        Some((1, 0))
    } else if c == 'N' {
        Some((0, 1))
    } else if c == 'O' {
        Some((1, 1))
    } else if c == 'H' {
        Some((0, 2))
    } else if c == 'J' {
        Some((1, 2))
    } else {
        None
    }
}

/// Easting and northing multipliers of a 100 km tile letter.
fn sub_off_exec(c: char) -> (r: Option<(i64, i64)>)
    ensures
        r is Some <==> sub_offsets(c) is Some,
        r matches Some(p) ==> sub_offsets(c) == Some((p.0 as int, p.1 as int)),
{
    if c == 'V' {
        Some((0, 0))
    } else if c == 'W' {
        Some((1, 0))
    } else if c == 'X' {
        Some((2, 0))
    } else if c == 'Y' {
        Some((3, 0))
    } else if c == 'Z' {
        Some((4, 0))
    } else if c == 'Q' {
        Some((0, 1))
    } else if c == 'R' {
        Some((1, 1))
    } else if c == 'S' {
        Some((2, 1))
    } else if c == 'T' {
        Some((3, 1))
    } else if c == 'U' {
        Some((4, 1))
    } else if c == 'L' {
        Some((0, 2))
    } else if c == 'M' {
        Some((1, 2))
    } else if c == 'N' {
        Some((2, 2))
    } else if c == 'O' {
        Some((3, 2))
    } else if c == 'P' {
        Some((4, 2))
    } else if c == 'F' {
        Some((0, 3))
    } else if c == 'G' {
        Some((1, 3))
    } else if c == 'H' {
        Some((2, 3))
    } else if c == 'J' {
        Some((3, 3))
    } else if c == 'K' {
        Some((4, 3))
    } else if c == 'A' {
        Some((0, 4))
    } else if c == 'B' {
        Some((1, 4))
    } else if c == 'C' {
        Some((2, 4))
    } else if c == 'D' {
        Some((3, 4))
    } else if c == 'E' {
        Some((4, 4))
    } else {
        None
    }
}

/// Decimal digit test.
fn is_digit_exec(c: char) -> (r: bool)
    ensures
        r == is_digit(c),
{
    c == '0' || c == '1' || c == '2' || c == '3' || c == '4' || c == '5' || c == '6' || c == '7'
        || c == '8' || c == '9'
}

/// Numeric value of a decimal digit character.
fn digit_of(c: char) -> (d: u8)
    requires
        is_digit(c),
    ensures
        d == digit_val(c),
        d < 10,
{
    if c == '0' {
        0
    } else if c == '1' {
        1
    } else if c == '2' {
        2
    } else if c == '3' {
        3
    } else if c == '4' {
        4
    } else if c == '5' {
        5
    } else if c == '6' {
        6
    } else if c == '7' {
        7
    } else if c == '8' {
        8
    } else {
        proof {
            assert(c == '9');
        }
        9
    }
}

/// Parses a digit run and pads it to five digits, or `None` when a
/// character is no digit, the run is empty, or the value leaves i64.
fn parse_digits_padded(tok: &Vec<char>) -> (r: Option<i64>)
    ensures
        r is Some <==> (all_digits(tok@) && tok@.len() >= 1 && padded5(tok@)
            <= 0x7fff_ffff_ffff_ffff),
        r matches Some(v) ==> v == padded5(tok@) && v >= 0,
{
    let n = tok.len();
    if n == 0 {
        return None;
    }
    let mut acc: u128 = 0;
    let mut j: usize = 0;
    while j < n
        invariant
            j <= n,
            n == tok@.len(),
            forall|ii: int| 0 <= ii < j ==> is_digit(#[trigger] tok@[ii]),
            acc == digits_val(tok@.subrange(0, j as int)),
            acc <= 0x7fff_ffff_ffff_ffff,
        decreases n - j,
    {
        let c = tok[j];
        if !is_digit_exec(c) {
            return None;
        }
        let d = digit_of(c);
        proof {
            assert(tok@.subrange(0, j as int + 1).drop_last() =~= tok@.subrange(0, j as int));
            assert(tok@.subrange(0, j as int + 1).last() == tok@[j as int]);
        }
        acc = acc * 10 + (d as u128);
        j += 1;
        if acc > 0x7fff_ffff_ffff_ffff {
            proof {
                if all_digits(tok@) {
                    lemma_digits_val_prefix_le(tok@, j as int);
                    lemma_padded5_nonneg(tok@);
                }
            }
            return None;
        }
    }
    proof {
        assert(tok@.subrange(0, n as int) =~= tok@);
        assert(pow10(0) == 1);
        assert(pow10(1) == 10);
        assert(pow10(2) == 100);
        assert(pow10(3) == 1000);
        assert(pow10(4) == 10000);
    }
    let pad: u128 = if n >= 5 {
        1
    } else if n == 4 {
        10
    } else if n == 3 {
        100
    } else if n == 2 {
        1000
    } else {
        10000
    };
    proof {
        assert(acc * pad <= 0x7fff_ffff_ffff_ffff * 10000) by (nonlinear_arith)
            requires acc <= 0x7fff_ffff_ffff_ffff, 1 <= pad <= 10000;
    }
    let v: u128 = acc * pad;
    if v > 0x7fff_ffff_ffff_ffff {
        return None;
    }
    Some(v as i64)
}

/// Restriction of space-stripping to the tail after the two letters.
proof fn lemma_strip_spaces_head2(s: Seq<char>)
    requires
        s.len() >= 2,
        s[0] != ' ',
        s[1] != ' ',
    ensures
        strip_spaces(s) == seq![s[0], s[1]] + strip_spaces(s.subrange(2, s.len() as int)),
{
    assert(s =~= s.subrange(0, 2) + s.subrange(2, s.len() as int));
    lemma_strip_spaces_add(s.subrange(0, 2), s.subrange(2, s.len() as int));
    let two = s.subrange(0, 2);
    assert(two.drop_last() =~= seq![s[0]]);
    assert(seq![s[0]].drop_last() =~= Seq::<char>::empty());
    assert(strip_spaces(Seq::<char>::empty()) == Seq::<char>::empty());
    assert(strip_spaces(seq![s[0]]) == strip_spaces(seq![s[0]].drop_last()).push(s[0]));
    assert(strip_spaces(two) == strip_spaces(two.drop_last()).push(s[1]));
    assert(strip_spaces(two) =~= seq![s[0], s[1]]);
    assert(strip_spaces(s) == strip_spaces(two) + strip_spaces(s.subrange(2, s.len() as int)));
}

/// A copy of the characters of `v` between two indices.
fn subvec(v: &Vec<char>, from: usize, to: usize) -> (r: Vec<char>)
    requires
        from <= to <= v@.len(),
    ensures
        r@ == v@.subrange(from as int, to as int),
{
    let mut r: Vec<char> = Vec::new();
    let mut t = from;
    while t < to
        invariant
            from <= t <= to <= v@.len(),
            r@ =~= v@.subrange(from as int, t as int),
        decreases to - t,
    {
        r.push(v[t]);
        t += 1;
    }
    proof {
        assert(r@ =~= v@.subrange(from as int, to as int));
    }
    r
}

/// Decodes an alphanumeric grid reference whose two letters are valid.
#[verifier::rlimit(50)]
fn parse_alpha(s: &str) -> (r: Result<OSCoords, OsError>)
    requires
        s@.len() >= 2,
        super_offsets(s@[0]) is Some,
        sub_offsets(s@[1]) is Some,
    ensures
        r is Ok <==> spec_parse_alpha(s@) is Ok,
        r matches Ok(c) ==> (spec_parse_alpha(s@) matches Ok(en) && c.easting == en.0
            && c.northing == en.1 && c.elevation_dm is None),
        r matches Err(e) ==> spec_parse_alpha(s@) == Err::<(int, int), OsError>(e),
{
    let n = s.unicode_len();
    let g = super_off_exec(s.get_char(0)).unwrap();
    let sub = sub_off_exec(s.get_char(1)).unwrap();
    // The digits, with every space removed.
    let mut rest: Vec<char> = Vec::new();
    let mut i: usize = 2;
    while i < n
        invariant
            2 <= i <= n,
            n == s@.len(),
            rest@ == strip_spaces(s@.subrange(2, i as int)),
        decreases n - i,
    {
        let c = s.get_char(i);
        proof {
            assert(s@.subrange(2, i as int + 1).drop_last() =~= s@.subrange(2, i as int));
            assert(s@.subrange(2, i as int + 1).last() == s@[i as int]);
        }
        if c != ' ' {
            rest.push(c);
        }
        i += 1;
    }
    proof {
        assert(s@[0] != ' ');
        assert(s@[1] != ' ');
        lemma_strip_spaces_head2(s@);
        assert(strip_spaces(s@).subrange(2, strip_spaces(s@).len() as int) =~= rest@);
    }
    let base_e: i64 = 500000 * g.0 + 100000 * sub.0;
    let base_n: i64 = 500000 * g.1 + 100000 * sub.1;
    if rest.len() == 0 {
        return Ok(OSCoords { easting: base_e, northing: base_n, elevation_dm: None });
    }
    if rest.len() % 2 != 0 {
        return Err(OsError::InvalidCoord);
    }
    let h = rest.len() / 2;
    let eh = subvec(&rest, 0, h);
    let nh = subvec(&rest, h, rest.len());
    let pe = parse_digits_padded(&eh);
    let pn = parse_digits_padded(&nh);
    match (pe, pn) {
        (Some(ve), Some(vn)) => {
            proof {
                assert forall|ii: int| 0 <= ii < rest@.len() implies is_digit(
                    #[trigger] rest@[ii],
                ) by {
                    if ii < h {
                        assert(rest@[ii] == eh@[ii]);
                    } else {
                        assert(rest@[ii] == nh@[ii - h]);
                    }
                }
                assert(all_digits(rest@));
            }
            let te: u128 = (base_e as u128) + (ve as u128);
            let tn: u128 = (base_n as u128) + (vn as u128);
            if te > 0x7fff_ffff_ffff_ffff || tn > 0x7fff_ffff_ffff_ffff {
                return Err(OsError::InvalidCoord);
            }
            Ok(OSCoords { easting: te as i64, northing: tn as i64, elevation_dm: None })
        },
        _ => {
            proof {
                if spec_parse_alpha(s@) is Ok {
                    assert(all_digits(rest@));
                    assert(all_digits(eh@));
                    assert(all_digits(nh@));
                    lemma_padded5_nonneg(eh@);
                    lemma_padded5_nonneg(nh@);
                    assert(eh@.len() >= 1 && nh@.len() >= 1);
                    assert(padded5(eh@) <= 0x7fff_ffff_ffff_ffff);
                    assert(padded5(nh@) <= 0x7fff_ffff_ffff_ffff);
                    assert(false);
                }
            }
            Err(OsError::InvalidCoord)
        },
    }
}

/// Decodes one coordinate string into an absolute (easting, northing)
/// pair, exactly as `spec_parse_coord` states.
pub fn parse_coord(s: &str) -> (r: Result<OSCoords, OsError>)
    ensures
        r is Ok <==> spec_parse_coord(s@) is Ok,
        r matches Ok(c) ==> (spec_parse_coord(s@) matches Ok(en) && c.easting == en.0
            && c.northing == en.1 && c.elevation_dm is None),
        r matches Err(e) ==> spec_parse_coord(s@) == Err::<(int, int), OsError>(e),
{
    let n = s.unicode_len();
    if n == 0 {
        return Err(OsError::InvalidCoord);
    }
    let c0 = s.get_char(0);
    match super_off_exec(c0) {
        Some(_) => {
            if n < 2 {
                return Err(OsError::InvalidCoord);
            }
            let c1 = s.get_char(1);
            match sub_off_exec(c1) {
                None => Err(OsError::InvalidCoord),
                Some(_) => parse_alpha(s),
            }
        },
        None => parse_numeric(s),
    }
}

/// First index at or after `from` holding a non-separator.
fn skip_seps_exec(s: &str, from: usize) -> (r: usize)
    requires
        from <= s@.len(),
    ensures
        r == skip_seps(s@, from as int),
        from <= r <= s@.len(),
{
    let n = s.unicode_len();
    let mut i = from;
    while i < n
        invariant
            from <= i <= n,
            n == s@.len(),
            skip_seps(s@, from as int) == skip_seps(s@, i as int),
        decreases n - i,
    {
        let c = s.get_char(i);
        if !(c == ' ' || c == ',') {
            return i;
        }
        i += 1;
    }
    i
}

/// First index at or after `from` holding a separator.
fn skip_tok_exec(s: &str, from: usize) -> (r: usize)
    requires
        from <= s@.len(),
    ensures
        r == skip_tok(s@, from as int),
        from <= r <= s@.len(),
{
    let n = s.unicode_len();
    let mut i = from;
    while i < n
        invariant
            from <= i <= n,
            n == s@.len(),
            skip_tok(s@, from as int) == skip_tok(s@, i as int),
        decreases n - i,
    {
        let c = s.get_char(i);
        if c == ' ' || c == ',' {
            return i;
        }
        i += 1;
    }
    i
}

/// Decodes a numeric coordinate pair.
fn parse_numeric(s: &str) -> (r: Result<OSCoords, OsError>)
    ensures
        r is Ok <==> spec_parse_numeric(s@) is Ok,
        r matches Ok(c) ==> (spec_parse_numeric(s@) matches Ok(en) && c.easting == en.0
            && c.northing == en.1 && c.elevation_dm is None),
        r matches Err(e) ==> spec_parse_numeric(s@) == Err::<(int, int), OsError>(e),
{
    let n = s.unicode_len();
    let i0 = skip_seps_exec(s, 0);
    let i1 = skip_tok_exec(s, i0);
    let i2 = skip_seps_exec(s, i1);
    let i3 = skip_tok_exec(s, i2);
    let i4 = skip_seps_exec(s, i3);
    if i1 == i0 || i3 == i2 || i4 < n {
        return Err(OsError::InvalidCoord);
    }
    let mut t1: Vec<char> = Vec::new();
    let mut a = i0;
    while a < i1
        invariant
            i0 <= a <= i1 <= s@.len(),
            t1@ =~= s@.subrange(i0 as int, a as int),
        decreases i1 - a,
    {
        t1.push(s.get_char(a));
        a += 1;
    }
    let mut t2: Vec<char> = Vec::new();
    let mut b = i2;
    while b < i3
        invariant
            i2 <= b <= i3 <= s@.len(),
            t2@ =~= s@.subrange(i2 as int, b as int),
        decreases i3 - b,
    {
        t2.push(s.get_char(b));
        b += 1;
    }
    proof {
        assert(t1@ =~= s@.subrange(i0 as int, i1 as int));
        assert(t2@ =~= s@.subrange(i2 as int, i3 as int));
    }
    let pe = parse_digits_padded(&t1);
    let pn = parse_digits_padded(&t2);
    match (pe, pn) {
        (Some(ve), Some(vn)) => Ok(OSCoords { easting: ve, northing: vn, elevation_dm: None }),
        _ => Err(OsError::InvalidCoord),
    }
}

/// Whether some string in the list fails to decode.
pub open spec fn some_coord_fails(input: Seq<&str>) -> bool {
    exists|i: int| 0 <= i < input.len() && (#[trigger] spec_parse_coord(input[i]@)) is Err
}

/// Decodes a list of coordinate strings, in order; the first string
/// that cannot be decoded fails the whole list.
pub fn parse_coords(input: &Vec<&str>) -> (r: Result<Vec<OSCoords>, OsError>)
    ensures
        match r {
            Ok(out) => {
                &&& out@.len() == input@.len()
                &&& forall|i: int|
                    0 <= i < input@.len() ==> (spec_parse_coord(input@[i]@) matches Ok(en)
                        && (#[trigger] out@[i]).easting == en.0 && out@[i].northing == en.1
                        && out@[i].elevation_dm is None)
            },
            Err(e) => e == OsError::InvalidCoord && some_coord_fails(input@),
        },
{
    let mut out: Vec<OSCoords> = Vec::new();
    let mut i: usize = 0;
    while i < input.len()
        invariant
            i <= input@.len(),
            out@.len() == i,
            forall|t: int|
                0 <= t < i ==> (spec_parse_coord(input@[t]@) matches Ok(en)
                    && (#[trigger] out@[t]).easting == en.0 && out@[t].northing == en.1
                    && out@[t].elevation_dm is None),
        decreases input@.len() - i,
    {
        match parse_coord(input[i]) {
            Ok(c) => {
                out.push(c);
            },
            Err(_) => {
                proof {
                    assert(spec_parse_coord(input@[i as int]@) is Err);
                    assert(some_coord_fails(input@));
                }
                return Err(OsError::InvalidCoord);
            },
        }
        i += 1;
    }
    Ok(out)
}

} // verus!
