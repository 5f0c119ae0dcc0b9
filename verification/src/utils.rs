//! Small utilities around the command line: decimal formatting with
//! thousands separators, the zip-name test, and the argument decision.

use vstd::prelude::*;
use crate::OsError;

verus! {

/// The decimal digit character for `d` (0 to 9).
pub open spec fn digit_char_spec(d: int) -> char {
    ((48 + d) as u8) as char
}

/// The decimal digits of `n >= 0`, most significant first.
pub open spec fn digits_of(n: int) -> Seq<char>
    decreases n,
{
    if n <= 9 {
        seq![digit_char_spec(n)]
    } else {
        digits_of(n / 10).push(digit_char_spec(n % 10))
    }
}

/// The digits from position `i` on, with a comma before every group of
/// three counted from the right.
pub open spec fn grouped_from(ds: Seq<char>, i: int) -> Seq<char>
    decreases ds.len() - i,
{
    if 0 <= i < ds.len() {
        (if i > 0 && (ds.len() - i) % 3 == 0 {
            seq![',']
        } else {
            Seq::empty()
        }) + seq![ds[i]] + grouped_from(ds, i + 1)
    } else {
        Seq::empty()
    }
}

/// The decimal rendering of `n` with comma-separated thousands groups.
pub open spec fn spec_format_int(n: int) -> Seq<char> {
    if n < 0 {
        seq!['-'] + grouped_from(digits_of(-n), 0)
    } else {
        grouped_from(digits_of(n), 0)
    }
}

proof fn lemma_digits_step(n: int)
    requires
        n >= 10,
    ensures
        digits_of(n) == digits_of(n / 10) + seq![digit_char_spec(n % 10)],
{
    assert(digits_of(n / 10).push(digit_char_spec(n % 10)) =~= digits_of(n / 10) + seq![
        digit_char_spec(n % 10),
    ]);
}

proof fn lemma_reverse_push(s: Seq<char>, c: char)
    ensures
        (s.push(c)).reverse() == seq![c] + s.reverse(),
{
    assert((s.push(c)).reverse() =~= seq![c] + s.reverse());
}

/// The character of one decimal digit.
fn digit_char(d: u64) -> (c: char)
    requires
        d < 10,
    ensures
        c == digit_char_spec(d as int),
        48 <= c as int <= 57,
{
    (48 + d as u8) as char
}

/// A one-character string slice for a digit or the separator.
fn char_str(c: char) -> (r: &'static str)
    requires
        48 <= c as int <= 57 || c == ',',
    ensures
        r@ == seq![c],
{
    if c == ',' {
        proof {
            reveal_strlit(",");
        }
        ","
    } else if c == '0' {
        proof {
            reveal_strlit("0");
        }
        "0"
    } else if c == '1' {
        proof {
            reveal_strlit("1");
        }
        "1"
    } else if c == '2' {
        proof {
            reveal_strlit("2");
        }
        "2"
    } else if c == '3' {
        proof {
            reveal_strlit("3");
        }
        "3"
    } else if c == '4' {
        proof {
            reveal_strlit("4");
        }
        "4"
    } else if c == '5' {
        proof {
            reveal_strlit("5");
        }
        "5"
    } else if c == '6' {
        proof {
            reveal_strlit("6");
        }
        "6"
    } else if c == '7' {
        proof {
            reveal_strlit("7");
        }
        "7"
    } else if c == '8' {
        proof {
            reveal_strlit("8");
        }
        "8"
    } else {
        proof {
            assert(c == '9');
            reveal_strlit("9");
        }
        "9"
    }
}

/// Formats an integer with commas between thousands groups, e.g.
/// 1000000 renders as "1,000,000".
pub fn format_int(int_to_fix: isize) -> (r: String)
    ensures
        r@ == spec_format_int(int_to_fix as int),
{
    let neg = int_to_fix < 0;
    let mag: u64 = if int_to_fix < 0 {
        (-(int_to_fix as i128)) as u64
    } else {
        int_to_fix as u64
    };
    proof {
        if neg {
            assert(mag as int == -(int_to_fix as int));
        }
    }

    // Digits, least significant first.
    let mut ls: Vec<char> = Vec::new();
    let mut m: u64 = mag;
    ls.push(digit_char(m % 10));
    m = m / 10;
    proof {
        if mag <= 9 {
            assert(ls@.reverse() =~= seq![digit_char_spec(mag as int)]);
            assert(digits_of(mag as int) =~= Seq::<char>::empty() + ls@.reverse());
        } else {
            lemma_digits_step(mag as int);
            assert(Seq::<char>::empty().push(digit_char_spec(mag as int % 10)).reverse() =~= seq![
                digit_char_spec(mag as int % 10),
            ]);
            assert(digits_of(mag as int) =~= digits_of(m as int) + ls@.reverse());
        }
    }
    while m > 0
        invariant
            ls@.len() >= 1,
            digits_of(mag as int) == (if m > 0 {
                digits_of(m as int)
            } else {
                Seq::<char>::empty()
            }) + ls@.reverse(),
            forall|t: int| 0 <= t < ls@.len() ==> 48 <= (#[trigger] ls@[t]) as int <= 57,
        decreases m,
    {
        let ghost old_ls = ls@;
        let ghost old_m = m as int;
        let c = digit_char(m % 10);
        ls.push(c);
        m = m / 10;
        proof {
            lemma_reverse_push(old_ls, c);
            if old_m <= 9 {
                assert(digits_of(old_m) =~= seq![c]);
                assert(Seq::<char>::empty() + ls@.reverse() =~= digits_of(old_m)
                    + old_ls.reverse());
            } else {
                lemma_digits_step(old_m);
                assert(digits_of(m as int) + ls@.reverse() =~= digits_of(old_m)
                    + old_ls.reverse());
            }
        }
    }
    proof {
        assert(digits_of(mag as int) == Seq::<char>::empty() + ls@.reverse());
        assert(Seq::<char>::empty() + ls@.reverse() =~= ls@.reverse());
    }

    // Reverse to most significant first.
    let n_digits = ls.len();
    let mut ds: Vec<char> = Vec::new();
    let mut t: usize = 0;
    while t < n_digits
        invariant
            t <= n_digits,
            n_digits == ls@.len(),
            ds@.len() == t,
            forall|u: int| 0 <= u < t ==> #[trigger] ds@[u] == ls@[n_digits - 1 - u],
            forall|u: int| 0 <= u < ls@.len() ==> 48 <= (#[trigger] ls@[u]) as int <= 57,
        decreases n_digits - t,
    {
        ds.push(ls[n_digits - 1 - t]);
        t += 1;
    }
    proof {
        assert(ds@ =~= ls@.reverse());
        assert(ds@ == digits_of(mag as int));
    }

    // Assemble with separators.
    let mut out = String::new();
    let ghost sign: Seq<char> = if neg {
        seq!['-']
    } else {
        Seq::empty()
    };
    if neg {
        proof {
            reveal_strlit("-");
        }
        out.append("-");
    }
    proof {
        assert(out@ =~= sign);
        assert(out@ + grouped_from(ds@, 0) =~= sign + grouped_from(ds@, 0));
    }
    let len = ds.len();
    let mut j: usize = 0;
    while j < len
        invariant
            j <= len,
            len == ds@.len(),
            forall|u: int| 0 <= u < ds@.len() ==> 48 <= (#[trigger] ds@[u]) as int <= 57,
            out@ + grouped_from(ds@, j as int) == sign + grouped_from(ds@, 0),
        decreases len - j,
    {
        let ghost old_out = out@;
        if j != 0 && (len - j) % 3 == 0 {
            proof {
                reveal_strlit(",");
            }
            out.append(",");
        }
        let cs = char_str(ds[j]);
        out.append(cs);
        proof {
            let commaopt: Seq<char> = if j > 0 && (ds@.len() - j) % 3 == 0 {
                seq![',']
            } else {
                Seq::empty()
            };
            assert(grouped_from(ds@, j as int) == commaopt + seq![ds@[j as int]] + grouped_from(
                ds@,
                j as int + 1,
            ));
            assert(out@ =~= old_out + commaopt + seq![ds@[j as int]]);
            assert(out@ + grouped_from(ds@, j as int + 1) =~= old_out + grouped_from(
                ds@,
                j as int,
            ));
        }
        j += 1;
    }
    proof {
        assert(grouped_from(ds@, len as int) == Seq::<char>::empty());
        assert(out@ =~= out@ + grouped_from(ds@, len as int));
        assert(out@ == sign + grouped_from(digits_of(mag as int), 0));
        if neg {
            assert(out@ =~= spec_format_int(int_to_fix as int));
        } else {
            assert(Seq::<char>::empty() + grouped_from(digits_of(mag as int), 0) =~= grouped_from(
                digits_of(mag as int),
                0,
            ));
        }
    }
    out
}

/// The path names a zip archive: it ends in ".zip".
pub open spec fn ends_with_zip(s: Seq<char>) -> bool {
    &&& s.len() >= 4
    &&& s[s.len() - 4] == '.'
    &&& s[s.len() - 3] == 'z'
    &&& s[s.len() - 2] == 'i'
    &&& s[s.len() - 1] == 'p'
}

/// Whether the path is a zip file: it carries the ".zip" suffix and, as
/// the caller has established, names an existing regular file.
pub fn is_zip_file(path: &str, is_file: bool) -> (r: bool)
    ensures
        r == (ends_with_zip(path@) && is_file),
{
    if !is_file {
        return false;
    }
    let n = path.unicode_len();
    if n < 4 {
        return false;
    }
    let c0 = path.get_char(n - 4);
    let c1 = path.get_char(n - 3);
    let c2 = path.get_char(n - 2);
    let c3 = path.get_char(n - 1);
    c0 == '.' && c1 == 'z' && c2 == 'i' && c3 == 'p'
}

/// What the command line asks for.
#[derive(Debug, Clone, Copy, PartialEq, Eq, Structural)]
pub enum ArgKind {
    ZipFile,
    Directory,
}

/// The command-line decision: exactly one argument is accepted, and it
/// must name a zip file or a directory (the caller probes the file
/// system and passes what it found).
pub fn args_check(num_args: usize, arg_is_zip_file: bool, arg_is_dir: bool) -> (r: Result<
    ArgKind,
    OsError,
>)
    ensures
        r == (if num_args == 2 {
            if arg_is_zip_file {
                Ok::<ArgKind, OsError>(ArgKind::ZipFile)
            } else if arg_is_dir {
                Ok::<ArgKind, OsError>(ArgKind::Directory)
            } else {
                Err::<ArgKind, OsError>(OsError::InvalidArgs)
            }
        } else {
            Err::<ArgKind, OsError>(OsError::InvalidArgs)
        }),
{
    if num_args == 2 {
        if arg_is_zip_file {
            Ok(ArgKind::ZipFile)
        } else if arg_is_dir {
            Ok(ArgKind::Directory)
        } else {
            Err(OsError::InvalidArgs)
        }
    } else {
        Err(OsError::InvalidArgs)
    }
}

} // verus!
