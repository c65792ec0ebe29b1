//! Text-level helpers: splitting an address on `.`, joining segments back
//! together, and the naive decimal `u8` check used to classify addresses.

use vstd::prelude::*;
use vstd::string::StrSliceExecFns;

verus! {

/// `c` is an ASCII decimal digit.
pub open spec fn is_digit(c: char) -> bool {
    48 <= c as u32 <= 57
}

/// The value of the ASCII digit `c`.
pub open spec fn digit_val(c: char) -> nat {
    (c as u32 - 48) as nat
}

/// Every character of `s` is an ASCII decimal digit.
pub open spec fn all_digits(s: Seq<char>) -> bool {
    forall|i: int| 0 <= i < s.len() ==> is_digit(s[i])
}

/// The number written by the digit string `s`, read left to right.
pub open spec fn digits_val(s: Seq<char>) -> nat
    decreases s.len(),
{
    if s.len() == 0 {
        0
    } else {
        digits_val(s.drop_last()) * 10 + digit_val(s.last())
    }
}

/// `s` parses as a `u8` the way `str::parse::<u8>` does: an optional leading
/// `+`, then at least one decimal digit, and a value of at most 255. Digit
/// count is not limited, so leading zeros are accepted.
pub open spec fn is_u8_str(s: Seq<char>) -> bool {
    let d = if s.len() > 0 && s[0] == '+' {
        s.drop_first()
    } else {
        s
    };
    d.len() > 0 && all_digits(d) && digits_val(d) <= 255
}

/// Extending a digit string to the right never lowers its value.
proof fn lemma_digits_val_monotone(s: Seq<char>, k: int)
    requires
        0 <= k <= s.len(),
    ensures
        digits_val(s) >= digits_val(s.take(k)),
    decreases s.len(),
{
    if s.len() > k {
        lemma_digits_val_monotone(s.drop_last(), k);
        assert(s.drop_last().take(k) =~= s.take(k));
    } else {
        assert(s.take(k) =~= s);
    }
}

/// Whether `s` would parse as a `u8`, checked without ever overflowing.
pub fn parses_as_u8(s: &str) -> (r: bool)
    ensures
        r == is_u8_str(s@),
{
    let n = s.unicode_len();
    let mut i: usize = 0;
    if n > 0 && s.get_char(0) == '+' {
        i = 1;
    }
    let ghost d = s@.subrange(i as int, n as int);
    proof {
        if i == 1 {
            assert(d =~= s@.drop_first());
        } else {
            assert(d =~= s@);
        }
    }
    if i == n {
        return false;
    }
    let mut val: u32 = 0;
    let mut j: usize = i;
    while j < n
        invariant
            i <= j <= n,
            n == s@.len(),
            d == s@.subrange(i as int, n as int),
            d == (if s@.len() > 0 && s@[0] == '+' {
                s@.drop_first()
            } else {
                s@
            }),
            all_digits(s@.subrange(i as int, j as int)),
            val == digits_val(s@.subrange(i as int, j as int)),
            val <= 255,
        decreases n - j,
    {
        let c = s.get_char(j);
        let u = c as u32;
        if u < 48 || u > 57 {
            proof {
                assert(d[j - i] == s@[j as int]);
                assert(!is_digit(d[j - i]));
            }
            return false;
        }
        proof {
            assert(s@.subrange(i as int, j + 1 as int).drop_last() =~= s@.subrange(
                i as int,
                j as int,
            ));
            assert(s@.subrange(i as int, j + 1 as int).last() == s@[j as int]);
        }
        val = val * 10 + (u - 48);
        j = j + 1;
        if val > 255 {
            proof {
                lemma_digits_val_monotone(d, j - i);
                assert(s@.subrange(i as int, j as int) =~= d.take(j - i));
            }
            return false;
        }
    }
    proof {
        assert(s@.subrange(i as int, j as int) =~= d);
    }
    true
}

/// The segments of `s` between `.` separators, in order. Splitting the empty
/// string gives one empty segment, and a separator at either end gives an
/// empty segment there, exactly like `str::split('.')`.
pub open spec fn split_dot(s: Seq<char>) -> Seq<Seq<char>>
    decreases s.len(),
{
    if s.len() == 0 {
        seq![Seq::<char>::empty()]
    } else if s.last() == '.' {
        split_dot(s.drop_last()).push(Seq::<char>::empty())
    } else {
        let r = split_dot(s.drop_last());
        r.update(r.len() - 1, r.last().push(s.last()))
    }
}

/// The segments of `s` between `.` separators, as subslices of `s`.
pub fn split_dots<'a>(s: &'a str) -> (parts: Vec<&'a str>)
    ensures
        parts.deep_view() == split_dot(s@),
        parts@.len() >= 1,
{
    let n = s.unicode_len();
    let mut parts: Vec<&'a str> = Vec::new();
    let mut start: usize = 0;
    let mut i: usize = 0;
    proof {
        assert(parts.deep_view().push(s@.subrange(0, 0)) =~~= split_dot(s@.take(0)));
    }
    while i < n
        invariant
            start <= i <= n,
            n == s@.len(),
            parts.deep_view().push(s@.subrange(start as int, i as int)) == split_dot(
                s@.take(i as int),
            ),
        decreases n - i,
    {
        let ghost prev = parts.deep_view();
        let ghost cur = s@.subrange(start as int, i as int);
        proof {
            assert(s@.take(i + 1 as int).drop_last() =~= s@.take(i as int));
            assert(s@.take(i + 1 as int).last() == s@[i as int]);
        }
        let c = s.get_char(i);
        if c == '.' {
            parts.push(s.substring_char(start, i));
            start = i + 1;
            proof {
                assert(parts.deep_view() =~~= prev.push(cur));
                assert(split_dot(s@.take(i + 1 as int)) == split_dot(s@.take(i as int)).push(
                    Seq::<char>::empty(),
                ));
                assert(parts.deep_view().push(s@.subrange(i + 1 as int, i + 1 as int)) =~~=
                split_dot(s@.take(i as int)).push(Seq::<char>::empty()));
            }
        } else {
            proof {
                let r = split_dot(s@.take(i as int));
                assert(r == prev.push(cur));
                assert(r.last() == cur);
                assert(split_dot(s@.take(i + 1 as int)) == r.update(
                    r.len() - 1,
                    cur.push(s@[i as int]),
                ));
                assert(cur.push(s@[i as int]) =~= s@.subrange(start as int, i + 1 as int));
                assert(r.update(r.len() - 1, s@.subrange(start as int, i + 1 as int)) =~~=
                prev.push(s@.subrange(start as int, i + 1 as int)));
            }
        }
        i = i + 1;
    }
    let ghost prev = parts.deep_view();
    parts.push(s.substring_char(start, n));
    proof {
        assert(s@.take(n as int) =~= s@);
        assert(parts.deep_view() =~~= prev.push(s@.subrange(start as int, n as int)));
    }
    parts
}

/// The segments of `parts`, joined with a single `.` between neighbours.
pub open spec fn join_dot(parts: Seq<Seq<char>>) -> Seq<char>
    decreases parts.len(),
{
    if parts.len() == 0 {
        Seq::empty()
    } else if parts.len() == 1 {
        parts[0]
    } else {
        join_dot(parts.drop_last()) + seq!['.'] + parts.last()
    }
}

/// The segments `parts[from..to]`, joined with `.` between neighbours.
pub fn join_dots(parts: &Vec<&str>, from: usize, to: usize) -> (r: String)
    requires
        from <= to <= parts@.len(),
    ensures
        r@ == join_dot(parts.deep_view().subrange(from as int, to as int)),
{
    let mut r = String::new();
    let mut j: usize = from;
    proof {
        assert(parts.deep_view().subrange(from as int, from as int) =~= Seq::<Seq<char>>::empty());
    }
    while j < to
        invariant
            from <= j <= to <= parts@.len(),
            r@ == join_dot(parts.deep_view().subrange(from as int, j as int)),
        decreases to - j,
    {
        let ghost dv = parts.deep_view();
        proof {
            reveal_strlit(".");
            assert(dv.subrange(from as int, j + 1 as int).drop_last() =~= dv.subrange(
                from as int,
                j as int,
            ));
            assert(dv.subrange(from as int, j + 1 as int).last() == dv[j as int]);
            assert("."@ =~= seq!['.']);
        }
        if j > from {
            r.append(".");
        }
        r.append(parts[j]);
        j = j + 1;
    }
    r
}

} // verus!
