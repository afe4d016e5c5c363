//! The tabular interchange format: comma-separated rows `x,y,name`, one city
//! per line, no header. Coordinates are decimal fixed-point numbers (an
//! optional minus, one to eight integer digits, optionally a dot and one to
//! four fraction digits). Names may hold anything but a line break; a name
//! containing a comma or a double quote is written quoted, with inner quotes
//! doubled.

use vstd::prelude::*;
use crate::geometry::COORD_LIMIT;
use crate::store::{city_ok, copy_bytes, name_ok_spec, store_ok, City, CityStore, CityV, Error, MAX_CITIES};

verus! {

pub open spec fn is_digit(b: u8) -> bool {
    48 <= b <= 57
}

pub open spec fn all_digits(s: Seq<u8>) -> bool {
    forall|i: int| 0 <= i < s.len() ==> is_digit(#[trigger] s[i])
}

/// Value of a digit string, most significant digit first.
pub open spec fn digits_val(s: Seq<u8>) -> int
    decreases s.len(),
{
    if s.len() == 0 {
        0
    } else {
        digits_val(s.drop_last()) * 10 + (s.last() - 48)
    }
}

/// Value of a digit string, least significant digit first.
pub open spec fn digits_val_lsb(s: Seq<u8>) -> int
    decreases s.len(),
{
    if s.len() == 0 {
        0
    } else {
        (s[0] - 48) + 10 * digits_val_lsb(s.drop_first())
    }
}

pub open spec fn pow10(k: int) -> int
    decreases k,
{
    if k <= 0 {
        1
    } else {
        10 * pow10(k - 1)
    }
}

/// Index of the first occurrence of `b` in `s`, or `s.len()` if none.
pub open spec fn find_byte(s: Seq<u8>, b: u8) -> int
    decreases s.len(),
{
    if s.len() == 0 {
        0
    } else if s[0] == b {
        0
    } else {
        1 + find_byte(s.drop_first(), b)
    }
}

pub proof fn lemma_find_byte(s: Seq<u8>, b: u8)
    ensures
        0 <= find_byte(s, b) <= s.len(),
        find_byte(s, b) < s.len() ==> s[find_byte(s, b)] == b,
        forall|i: int| 0 <= i < find_byte(s, b) ==> s[i] != b,
    decreases s.len(),
{
    if s.len() > 0 && s[0] != b {
        lemma_find_byte(s.drop_first(), b);
        assert forall|i: int| 0 <= i < find_byte(s, b) implies s[i] != b by {
            if i > 0 {
                assert(s.drop_first()[i - 1] == s[i]);
            }
        }
    }
}

/// `find_byte` is the only index with nothing equal to `b` before it and
/// either `b` or the end at it.
pub proof fn lemma_find_byte_at(s: Seq<u8>, b: u8, i: int)
    requires
        0 <= i <= s.len(),
        forall|j: int| 0 <= j < i ==> s[j] != b,
        i < s.len() ==> s[i] == b,
    ensures
        find_byte(s, b) == i,
{
    lemma_find_byte(s, b);
    let f = find_byte(s, b);
    if f < i {
        assert(s[f] == b);
    }
    if i < f {
        assert(s[i] != b);
    }
}

/// A decimal fixed-point literal: optional minus, one to eight integer
/// digits, optionally a dot followed by one to four fraction digits.
pub open spec fn is_number(s: Seq<u8>) -> bool {
    let t = if s.len() > 0 && s[0] == 45 {
        s.drop_first()
    } else {
        s
    };
    let d = find_byte(t, 46);
    &&& t.len() > 0
    &&& 1 <= d <= 8
    &&& all_digits(t.take(d))
    &&& (d == t.len() || (1 <= t.len() - d - 1 <= 4 && all_digits(t.skip(d + 1))))
}

/// The fixed-point value (in `SCALE` units) a number literal denotes.
pub open spec fn number_val(s: Seq<u8>) -> int {
    let neg = s.len() > 0 && s[0] == 45;
    let t = if neg {
        s.drop_first()
    } else {
        s
    };
    let d = find_byte(t, 46);
    let ip = digits_val(t.take(d));
    let fp = if d == t.len() {
        0
    } else {
        digits_val(t.skip(d + 1)) * pow10(4 - (t.len() - d - 1))
    };
    if neg {
        -(ip * 10000 + fp)
    } else {
        ip * 10000 + fp
    }
}

pub proof fn lemma_digits_val_bound(s: Seq<u8>)
    requires
        all_digits(s),
    ensures
        0 <= digits_val(s) < pow10(s.len() as int),
    decreases s.len(),
{
    if s.len() > 0 {
        assert(all_digits(s.drop_last())) by {
            assert(forall|i: int|
                0 <= i < s.drop_last().len() ==> s.drop_last()[i] == #[trigger] s[i]);
        }
        lemma_digits_val_bound(s.drop_last());
        assert(is_digit(s.last()));
    }
}

pub proof fn lemma_pow10_le(a: int, b: int)
    requires
        a <= b,
    ensures
        pow10(a) <= pow10(b),
        pow10(a) >= 1,
    decreases b - a,
{
    if a < b {
        lemma_pow10_le(a, b - 1);
    } else {
        lemma_pow10_pos(a);
    }
}

pub proof fn lemma_pow10_pos(k: int)
    ensures
        pow10(k) >= 1,
    decreases k,
{
    if k > 0 {
        lemma_pow10_pos(k - 1);
    }
}

/// Digit strings least-significant first, reversed, denote the same value
/// most-significant first.
pub proof fn lemma_digits_reverse(s: Seq<u8>)
    ensures
        digits_val(s.reverse()) == digits_val_lsb(s),
    decreases s.len(),
{
    if s.len() > 0 {
        lemma_digits_reverse(s.drop_first());
        let r = s.reverse();
        assert(r.last() == s[0]);
        assert(r.drop_last() =~= s.drop_first().reverse());
    }
}

/// First position of `b` in `v` at or after `from`, or the length if none.
pub(crate) fn find_in(v: &Vec<u8>, from: usize, b: u8) -> (idx: usize)
    requires
        from <= v@.len(),
    ensures
        from <= idx <= v@.len(),
        forall|j: int| from <= j < idx ==> v@[j] != b,
        idx < v@.len() ==> v@[idx as int] == b,
{
    let mut d: usize = from;
    while d < v.len()
        invariant
            from <= d <= v@.len(),
            forall|j: int| from <= j < d ==> v@[j] != b,
        decreases v@.len() - d,
    {
        if v[d] == b {
            return d;
        }
        d += 1;
    }
    d
}

/// Extracts the subrange `[a, b)` of `v` as its own vector.
pub(crate) fn sub_bytes(v: &Vec<u8>, a: usize, b: usize) -> (r: Vec<u8>)
    requires
        a <= b <= v@.len(),
    ensures
        r@ == v@.subrange(a as int, b as int),
{
    let mut r: Vec<u8> = Vec::new();
    let mut i: usize = a;
    while i < b
        invariant
            a <= i <= b <= v@.len(),
            r@ == v@.subrange(a as int, i as int),
        decreases b - i,
    {
        r.push(v[i]);
        proof {
            assert(v@.subrange(a as int, i + 1 as int) =~= v@.subrange(a as int, i as int).push(
                v@[i as int],
            ));
        }
        i += 1;
    }
    r
}

/// Parses a run of digits `v[a..b]`, most significant first.
fn parse_digits(v: &Vec<u8>, a: usize, b: usize) -> (r: Result<u64, Error>)
    requires
        a <= b <= v@.len(),
        b - a <= 8,
    ensures
        match r {
            Ok(x) => {
                &&& all_digits(v@.subrange(a as int, b as int))
                &&& x as int == digits_val(v@.subrange(a as int, b as int))
                &&& x < 100000000
            },
            Err(e) => !all_digits(v@.subrange(a as int, b as int)) && e == Error::Parse,
        },
{
    let ghost whole = v@.subrange(a as int, b as int);
    let mut x: u64 = 0;
    let mut i: usize = a;
    proof {
        reveal_with_fuel(pow10, 9);
    }
    #[verifier::loop_isolation(false)]
    while i < b
        invariant
            a <= i <= b,
            all_digits(v@.subrange(a as int, i as int)),
            x as int == digits_val(v@.subrange(a as int, i as int)),
            0 <= x as int,
            (x as int) < pow10(i - a),
            pow10(i - a) <= pow10(8),
        decreases b - i,
    {
        let c = v[i];
        if c < 48 || c > 57 {
            proof {
                assert(whole[i - a] == c);
                assert(!all_digits(whole));
            }
            return Err(Error::Parse);
        }
        proof {
            let pre = v@.subrange(a as int, i as int);
            assert(v@.subrange(a as int, i + 1 as int) =~= pre.push(c));
            assert(pre.push(c).drop_last() =~= pre);
            lemma_pow10_le(i + 1 - a, 8);
        }
        x = x * 10 + ((c - 48) as u64);
        i += 1;
    }
    Ok(x)
}

/// Parses one decimal fixed-point literal into `SCALE` units. Succeeds
/// exactly on strings of the number grammar; every value it returns is
/// within the coordinate range.
pub fn parse_number(s: &Vec<u8>) -> (r: Result<i64, Error>)
    ensures
        match r {
            Ok(x) => {
                &&& is_number(s@)
                &&& x as int == number_val(s@)
                &&& -(COORD_LIMIT as int) <= x as int <= COORD_LIMIT as int
            },
            Err(e) => !is_number(s@) && e == Error::Parse,
        },
{
    let n = s.len();
    let start: usize = if n > 0 && s[0] == 45 {
        1
    } else {
        0
    };
    let ghost t = if start == 1 {
        s@.drop_first()
    } else {
        s@
    };
    proof {
        assert(t.len() == n - start);
        assert(forall|j: int| 0 <= j < t.len() ==> t[j] == s@[j + start]);
    }
    if n == start {
        proof {
            lemma_find_byte(t, 46);
        }
        return Err(Error::Parse);
    }
    // find the dot
    let d = find_in(s, start, 46);
    proof {
        assert forall|j: int| 0 <= j < d - start implies t[j] != 46 by {
            assert(t[j] == s@[j + start]);
        }
        if (d as int) - start < t.len() {
            assert(t[d - start] == s@[d as int]);
        }
        lemma_find_byte_at(t, 46, d - start);
    }
    let ilen = d - start;
    if ilen < 1 || ilen > 8 {
        return Err(Error::Parse);
    }
    let ip = match parse_digits(s, start, d) {
        Ok(x) => x,
        Err(e) => {
            proof {
                assert(t.take(ilen as int) =~= s@.subrange(start as int, d as int));
            }
            return Err(e);
        },
    };
    proof {
        assert(t.take(ilen as int) =~= s@.subrange(start as int, d as int));
    }
    let mut fp: u64 = 0;
    if d < n {
        let flen = n - d - 1;
        if flen < 1 || flen > 4 {
            return Err(Error::Parse);
        }
        let fraw = match parse_digits(s, d + 1, n) {
            Ok(x) => x,
            Err(e) => {
                proof {
                    assert(t.skip(ilen + 1 as int) =~= s@.subrange(d + 1 as int, n as int));
                }
                return Err(e);
            },
        };
        proof {
            assert(t.skip(ilen + 1 as int) =~= s@.subrange(d + 1 as int, n as int));
            lemma_digits_val_bound(t.skip(ilen + 1 as int));
            reveal_with_fuel(pow10, 9);
        }
        let mult: u64 = if flen == 1 {
            1000
        } else if flen == 2 {
            100
        } else if flen == 3 {
            10
        } else {
            1
        };
        fp = fraw * mult;
        proof {
            assert(fp as int == digits_val(t.skip(ilen + 1 as int)) * pow10(4 - (t.len() - ilen
                - 1)));
            assert(fp < 10000);
        }
    }
    proof {
        reveal_with_fuel(pow10, 9);
        assert(ip as int * 10000 <= 99999999 * 10000) by (nonlinear_arith)
            requires
                0 <= ip as int <= 99999999,
        ;
    }
    let mag: u64 = ip * 10000 + fp;
    if start == 1 {
        Ok(-(mag as i64))
    } else {
        Ok(mag as i64)
    }
}

/// Appending a digit at the end of a least-significant-first string raises
/// its value by that digit times the next power of ten.
pub proof fn lemma_lsb_push(s: Seq<u8>, d: u8)
    ensures
        digits_val_lsb(s.push(d)) == digits_val_lsb(s) + (d - 48) * pow10(s.len() as int),
    decreases s.len(),
{
    if s.len() == 0 {
        assert(s.push(d) =~= seq![d]);
        assert(digits_val_lsb(seq![d]) == (d - 48) + 10 * digits_val_lsb(seq![d].drop_first()));
        assert(seq![d].drop_first() =~= Seq::<u8>::empty());
    } else {
        assert(s.push(d).drop_first() =~= s.drop_first().push(d));
        lemma_lsb_push(s.drop_first(), d);
        assert(s.push(d)[0] == s[0]);
        assert((d - 48) * pow10(s.len() as int) == 10 * ((d - 48) * pow10(s.len() - 1)))
            by (nonlinear_arith)
            requires
                pow10(s.len() as int) == 10 * pow10(s.len() - 1),
        ;
    }
}

/// Reverses a byte string.
fn reverse_bytes(v: &Vec<u8>) -> (r: Vec<u8>)
    ensures
        r@ == v@.reverse(),
{
    let mut r: Vec<u8> = Vec::new();
    let mut i: usize = v.len();
    while i > 0
        invariant
            i <= v@.len(),
            r@.len() == v@.len() - i,
            forall|q: int| 0 <= q < r@.len() ==> r@[q] == v@[v@.len() - 1 - q],
        decreases i,
    {
        i -= 1;
        r.push(v[i]);
    }
    proof {
        assert(r@ =~= v@.reverse());
    }
    r
}

/// Digits of `x`, most significant first, without leading zeros.
fn int_digits(x0: u64) -> (ds: Vec<u8>)
    requires
        x0 < 100000000,
    ensures
        all_digits(ds@),
        1 <= ds@.len() <= 8,
        digits_val(ds@) == x0 as int,
{
    let mut tmp: Vec<u8> = Vec::new();
    let mut x = x0;
    if x == 0 {
        tmp.push(48);
        proof {
            assert(tmp@ =~= seq![48u8]);
            assert(tmp@.drop_last() =~= Seq::<u8>::empty());
            assert(digits_val(tmp@) == digits_val(tmp@.drop_last()) * 10 + (tmp@.last() - 48));
        }
        return tmp;
    }
    proof {
        reveal_with_fuel(pow10, 9);
    }
    #[verifier::loop_isolation(false)]
    while x > 0
        invariant
            digits_val_lsb(tmp@) + (x as int) * pow10(tmp@.len() as int) == x0 as int,
            all_digits(tmp@),
            tmp@.len() <= 8,
            (x as int) < pow10(8 - tmp@.len() as int),
            tmp@.len() == 0 ==> x > 0,
        decreases x,
    {
        let dig: u8 = (x % 10) as u8 + 48;
        proof {
            lemma_lsb_push(tmp@, dig);
            let len = tmp@.len() as int;
            if len >= 8 {
                assert(pow10(8 - len) <= 1) by {
                    lemma_pow10_le(8 - len, 0);
                }
                assert(false);
            }
            assert(pow10(len + 1) == 10 * pow10(len));
            assert((x as int % 10) + 10 * (x as int / 10) == x as int);
            assert(digits_val_lsb(tmp@) + (x as int % 10) * pow10(len) + (x as int / 10) * pow10(
                len + 1,
            ) == digits_val_lsb(tmp@) + (x as int) * pow10(len)) by (nonlinear_arith)
                requires
                    pow10(len + 1) == 10 * pow10(len),
                    (x as int % 10) + 10 * (x as int / 10) == x as int,
            ;
            assert((x as int / 10) < pow10(8 - (len + 1))) by (nonlinear_arith)
                requires
                    (x as int) < pow10(8 - len),
                    pow10(8 - len) == 10 * pow10(8 - len - 1),
                    pow10(8 - len - 1) >= 1,
            ;
        }
        tmp.push(dig);
        x = x / 10;
    }
    let ds = reverse_bytes(&tmp);
    proof {
        lemma_digits_reverse(tmp@);
        assert(forall|q: int|
            0 <= q < ds@.len() ==> ds@[q] == #[trigger] tmp@[tmp@.len() - 1 - q]);
    }
    ds
}

/// Exactly four digits, most significant first, zero padded.
fn frac_digits(x0: u64) -> (ds: Vec<u8>)
    requires
        x0 < 10000,
    ensures
        all_digits(ds@),
        ds@.len() == 4,
        digits_val(ds@) == x0 as int,
{
    let mut tmp: Vec<u8> = Vec::new();
    let mut x = x0;
    let mut k: usize = 0;
    proof {
        reveal_with_fuel(pow10, 9);
    }
    #[verifier::loop_isolation(false)]
    while k < 4
        invariant
            k <= 4,
            tmp@.len() == k,
            digits_val_lsb(tmp@) + (x as int) * pow10(k as int) == x0 as int,
            all_digits(tmp@),
            (x as int) < pow10(4 - k as int),
        decreases 4 - k,
    {
        let dig: u8 = (x % 10) as u8 + 48;
        proof {
            lemma_lsb_push(tmp@, dig);
            let len = k as int;
            assert(pow10(len + 1) == 10 * pow10(len));
            assert(digits_val_lsb(tmp@) + (x as int % 10) * pow10(len) + (x as int / 10) * pow10(
                len + 1,
            ) == digits_val_lsb(tmp@) + (x as int) * pow10(len)) by (nonlinear_arith)
                requires
                    pow10(len + 1) == 10 * pow10(len),
                    (x as int % 10) + 10 * (x as int / 10) == x as int,
            ;
            assert((x as int / 10) < pow10(4 - (len + 1))) by (nonlinear_arith)
                requires
                    (x as int) < pow10(4 - len),
                    pow10(4 - len) == 10 * pow10(4 - len - 1),
                    pow10(4 - len - 1) >= 1,
            ;
        }
        tmp.push(dig);
        x = x / 10;
        k += 1;
    }
    let ds = reverse_bytes(&tmp);
    proof {
        lemma_digits_reverse(tmp@);
        assert(forall|q: int|
            0 <= q < ds@.len() ==> ds@[q] == #[trigger] tmp@[tmp@.len() - 1 - q]);
    }
    ds
}

/// Renders a fixed-point value as a decimal literal with four fraction
/// digits. What comes out always parses back to the same value.
pub fn format_number(v: i64) -> (out: Vec<u8>)
    requires
        -(COORD_LIMIT as int) <= v as int <= COORD_LIMIT as int,
    ensures
        is_number(out@),
        number_val(out@) == v as int,
        forall|i: int|
            0 <= i < out@.len() ==> (out@[i] == 45 || out@[i] == 46 || is_digit(#[trigger] out@[i])),
{
    let neg = v < 0;
    let mag: u64 = if neg {
        (-v) as u64
    } else {
        v as u64
    };
    let ip = mag / 10000;
    let fp = mag % 10000;
    let mut ids = int_digits(ip);
    let mut fds = frac_digits(fp);
    let ghost ids0 = ids@;
    let ghost fds0 = fds@;
    let mut out: Vec<u8> = Vec::new();
    if neg {
        out.push(45);
    }
    out.append(&mut ids);
    out.push(46);
    out.append(&mut fds);
    proof {
        let t = if neg {
            out@.drop_first()
        } else {
            out@
        };
        assert(t =~= ids0 + seq![46u8] + fds0);
        let dl = ids0.len() as int;
        assert forall|j: int| 0 <= j < dl implies t[j] != 46 by {
            assert(t[j] == ids0[j]);
            assert(is_digit(ids0[j]));
        }
        assert(t[dl] == 46);
        lemma_find_byte_at(t, 46, dl);
        assert(t.take(dl) =~= ids0);
        assert(t.skip(dl + 1) =~= fds0);
        assert(out@[0] == 45 <==> neg) by {
            if !neg {
                assert(out@[0] == ids0[0]);
                assert(is_digit(ids0[0]));
            }
        }
        if neg {
            assert(t == out@.drop_first());
        }
        assert(pow10(0) == 1);
        assert(mag as int == (ip as int) * 10000 + fp as int);
        assert(number_val(out@) == v as int);
        assert forall|i: int|
            0 <= i < out@.len() implies (out@[i] == 45 || out@[i] == 46 || is_digit(
            #[trigger] out@[i],
        )) by {
            let base: int = if neg { 1 } else { 0 };
            if i >= base {
                assert(out@[i] == t[i - base]);
            }
        }
    }
    out
}

/// A name that may stand unquoted: no comma, no quote, no line break.
pub open spec fn raw_name_ok(f: Seq<u8>) -> bool {
    forall|i: int| 0 <= i < f.len() ==> #[trigger] f[i] != 44 && f[i] != 34 && f[i] != 10
}

/// What may follow an opening quote: bytes with every inner quote doubled,
/// closed by a final quote at the very end.
pub open spec fn qbody_ok(s: Seq<u8>) -> bool
    decreases s.len(),
{
    if s.len() == 0 {
        false
    } else if s[0] == 34 {
        s.len() == 1 || (s.len() >= 2 && s[1] == 34 && qbody_ok(s.skip(2)))
    } else {
        s[0] != 10 && qbody_ok(s.skip(1))
    }
}

/// The name a well-formed quoted body denotes.
pub open spec fn qbody_val(s: Seq<u8>) -> Seq<u8>
    decreases s.len(),
{
    if s.len() == 0 {
        Seq::empty()
    } else if s[0] == 34 {
        if s.len() == 1 {
            Seq::empty()
        } else {
            seq![34u8] + qbody_val(s.skip(2))
        }
    } else {
        seq![s[0]] + qbody_val(s.skip(1))
    }
}

/// A name field: either quoted, or raw without comma, quote or line break.
pub open spec fn is_name_field(f: Seq<u8>) -> bool {
    if f.len() > 0 && f[0] == 34 {
        qbody_ok(f.drop_first())
    } else {
        raw_name_ok(f)
    }
}

/// The name a well-formed field denotes.
pub open spec fn name_field_val(f: Seq<u8>) -> Seq<u8> {
    if f.len() > 0 && f[0] == 34 {
        qbody_val(f.drop_first())
    } else {
        f
    }
}

/// `s` with every quote doubled.
pub open spec fn doubled(s: Seq<u8>) -> Seq<u8>
    decreases s.len(),
{
    if s.len() == 0 {
        Seq::empty()
    } else {
        doubled(s.drop_last()) + (if s.last() == 34 {
            seq![34u8, 34u8]
        } else {
            seq![s.last()]
        })
    }
}

/// `doubled` can also be peeled from the front.
pub proof fn lemma_doubled_first(s: Seq<u8>)
    requires
        s.len() > 0,
    ensures
        doubled(s) == (if s[0] == 34 {
            seq![34u8, 34u8]
        } else {
            seq![s[0]]
        }) + doubled(s.drop_first()),
    decreases s.len(),
{
    let head: Seq<u8> = if s[0] == 34 {
        seq![34u8, 34u8]
    } else {
        seq![s[0]]
    };
    if s.len() == 1 {
        assert(s.drop_last() =~= Seq::<u8>::empty());
        assert(s.drop_first() =~= Seq::<u8>::empty());
        assert(s.last() == s[0]);
        assert(doubled(s) =~= head + doubled(s.drop_first()));
    } else {
        lemma_doubled_first(s.drop_last());
        let tail: Seq<u8> = if s.last() == 34 {
            seq![34u8, 34u8]
        } else {
            seq![s.last()]
        };
        assert(s.drop_last()[0] == s[0]);
        assert(s.drop_last().drop_first() =~= s.drop_first().drop_last());
        assert(s.drop_first().last() == s.last());
        assert(doubled(s) == (head + doubled(s.drop_last().drop_first())) + tail);
        assert((head + doubled(s.drop_first().drop_last())) + tail =~= head + (doubled(
            s.drop_first().drop_last(),
        ) + tail));
        assert(doubled(s.drop_first()) == doubled(s.drop_first().drop_last()) + tail);
    }
}

/// Doubling quotes in a line-break-free name, then closing the quote, is a
/// well-formed quoted body denoting exactly that name.
pub proof fn lemma_qbody_roundtrip(s: Seq<u8>)
    requires
        name_ok_spec(s),
    ensures
        qbody_ok(doubled(s) + seq![34u8]),
        qbody_val(doubled(s) + seq![34u8]) == s,
    decreases s.len(),
{
    let w = doubled(s) + seq![34u8];
    if s.len() == 0 {
        assert(w =~= seq![34u8]);
        assert(qbody_val(w) =~= s);
    } else {
        lemma_doubled_first(s);
        assert(name_ok_spec(s.drop_first())) by {
            assert(forall|i: int|
                0 <= i < s.drop_first().len() ==> s.drop_first()[i] == #[trigger] s[i + 1]);
        }
        lemma_qbody_roundtrip(s.drop_first());
        let rest = doubled(s.drop_first()) + seq![34u8];
        if s[0] == 34 {
            assert(w =~= seq![34u8, 34u8] + rest);
            assert(w[0] == 34 && w[1] == 34);
            assert(w.len() >= 3);
            assert(w.skip(2) =~= rest);
            assert(qbody_val(w) == seq![34u8] + qbody_val(rest));
            assert(seq![34u8] + s.drop_first() =~= s);
        } else {
            assert(w =~= seq![s[0]] + rest);
            assert(w[0] == s[0]);
            assert(s[0] != 34);
            assert(s[0] != 10);
            assert(w.skip(1) =~= rest);
            assert(qbody_val(w) == seq![s[0]] + qbody_val(rest));
            assert(seq![s[0]] + s.drop_first() =~= s);
        }
    }
}

/// A well-formed quoted body never denotes a name with a line break.
pub proof fn lemma_qbody_val_no_newline(s: Seq<u8>)
    requires
        qbody_ok(s),
    ensures
        name_ok_spec(qbody_val(s)),
    decreases s.len(),
{
    if s[0] == 34 {
        if s.len() > 1 {
            lemma_qbody_val_no_newline(s.skip(2));
        }
    } else {
        lemma_qbody_val_no_newline(s.skip(1));
    }
}

/// A well-formed name field never denotes a name with a line break.
pub proof fn lemma_name_field_no_newline(f: Seq<u8>)
    requires
        is_name_field(f),
    ensures
        name_ok_spec(name_field_val(f)),
{
    if f.len() > 0 && f[0] == 34 {
        lemma_qbody_val_no_newline(f.drop_first());
    }
}

/// Parses one name field. Succeeds exactly on well-formed fields, returning
/// the name they denote.
pub fn parse_name(f: &Vec<u8>) -> (r: Result<Vec<u8>, Error>)
    ensures
        match r {
            Ok(name) => is_name_field(f@) && name@ == name_field_val(f@),
            Err(e) => !is_name_field(f@) && e == Error::Parse,
        },
{
    let n = f.len();
    if n == 0 || f[0] != 34 {
        let mut i: usize = 0;
        #[verifier::loop_isolation(false)]
        while i < n
            invariant
                i <= n,
                n == f@.len(),
                forall|j: int| 0 <= j < i ==> #[trigger] f@[j] != 44 && f@[j] != 34 && f@[j] != 10,
            decreases n - i,
        {
            let b = f[i];
            if b == 44 || b == 34 || b == 10 {
                assert(!raw_name_ok(f@));
                return Err(Error::Parse);
            }
            i += 1;
        }
        return Ok(copy_bytes(f));
    }
    let mut out: Vec<u8> = Vec::new();
    let mut i: usize = 1;
    #[verifier::loop_isolation(false)]
    while i < n
        invariant
            1 <= i <= n,
            n == f@.len(),
            qbody_ok(f@.skip(1)) == qbody_ok(f@.skip(i as int)),
            qbody_ok(f@.skip(1)) ==> qbody_val(f@.skip(1)) == out@ + qbody_val(f@.skip(i as int)),
        decreases n - i,
    {
        let ghost cur = f@.skip(i as int);
        proof {
            assert(cur[0] == f@[i as int]);
        }
        let b = f[i];
        if b == 34 {
            if i + 1 == n {
                proof {
                    assert(cur =~= seq![34u8]);
                    assert(qbody_ok(cur));
                    assert(qbody_val(cur) =~= Seq::<u8>::empty());
                    assert(out@ + Seq::<u8>::empty() =~= out@);
                }
                return Ok(out);
            }
            if f[i + 1] == 34 {
                proof {
                    assert(cur[1] == f@[i + 1]);
                    assert(cur.skip(2) =~= f@.skip(i + 2 as int));
                    assert(qbody_ok(cur) == qbody_ok(f@.skip(i + 2 as int)));
                    assert(qbody_val(cur) == seq![34u8] + qbody_val(f@.skip(i + 2 as int)));
                    assert(out@ + qbody_val(cur) =~= out@.push(34u8) + qbody_val(
                        f@.skip(i + 2 as int),
                    ));
                }
                out.push(34);
                i += 2;
            } else {
                proof {
                    assert(cur[1] == f@[i + 1]);
                    assert(!qbody_ok(cur));
                }
                return Err(Error::Parse);
            }
        } else {
            if b == 10 {
                proof {
                    assert(!qbody_ok(cur));
                }
                return Err(Error::Parse);
            }
            proof {
                assert(cur.skip(1) =~= f@.skip(i + 1 as int));
                assert(qbody_ok(cur) == qbody_ok(f@.skip(i + 1 as int)));
                assert(qbody_val(cur) == seq![cur[0]] + qbody_val(f@.skip(i + 1 as int)));
                assert(out@ + qbody_val(cur) =~= out@.push(b) + qbody_val(f@.skip(i + 1 as int)));
            }
            out.push(b);
            i += 1;
        }
    }
    proof {
        assert(f@.skip(n as int) =~= Seq::<u8>::empty());
        assert(!qbody_ok(f@.skip(n as int)));
    }
    Err(Error::Parse)
}

/// Renders a name as a field: raw when it needs no quoting, quoted with
/// doubled inner quotes otherwise. What comes out always parses back to the
/// same name.
pub fn format_name(name: &Vec<u8>) -> (f: Vec<u8>)
    requires
        name_ok_spec(name@),
    ensures
        is_name_field(f@),
        name_field_val(f@) == name@,
        forall|i: int| 0 <= i < f@.len() ==> #[trigger] f@[i] != 10,
{
    let n = name.len();
    let mut plain = true;
    let mut i: usize = 0;
    while i < n
        invariant
            i <= n,
            n == name@.len(),
            plain == (forall|j: int| 0 <= j < i ==> #[trigger] name@[j] != 44 && name@[j] != 34),
        decreases n - i,
    {
        let b = name[i];
        if b == 44 || b == 34 {
            plain = false;
        }
        i += 1;
    }
    if plain {
        let f = copy_bytes(name);
        assert(raw_name_ok(f@));
        return f;
    }
    let mut f: Vec<u8> = Vec::new();
    f.push(34);
    let mut k: usize = 0;
    #[verifier::loop_isolation(false)]
    while k < n
        invariant
            k <= n,
            f@ == seq![34u8] + doubled(name@.take(k as int)),
        decreases n - k,
    {
        let ghost pre = name@.take(k as int);
        proof {
            assert(name@.take(k + 1 as int).drop_last() =~= pre);
            assert(name@.take(k + 1 as int).last() == name@[k as int]);
        }
        let b = name[k];
        if b == 34 {
            f.push(34);
            f.push(34);
            proof {
                assert(f@ =~= seq![34u8] + (doubled(pre) + seq![34u8, 34u8]));
            }
        } else {
            f.push(b);
            proof {
                assert(f@ =~= seq![34u8] + (doubled(pre) + seq![b]));
            }
        }
        k += 1;
    }
    f.push(34);
    proof {
        assert(name@.take(n as int) =~= name@);
        lemma_qbody_roundtrip(name@);
        assert(f@.drop_first() =~= doubled(name@) + seq![34u8]);
        assert(f@[0] == 34);
        assert forall|q: int| 0 <= q < f@.len() implies #[trigger] f@[q] != 10 by {
            if 1 <= q < f@.len() - 1 {
                assert(name_ok_spec(doubled(name@))) by {
                    lemma_doubled_no_newline(name@);
                }
                assert(f@[q] == doubled(name@)[q - 1]);
            }
        }
    }
    f
}

/// Doubling quotes never introduces a line break.
pub proof fn lemma_doubled_no_newline(s: Seq<u8>)
    requires
        name_ok_spec(s),
    ensures
        name_ok_spec(doubled(s)),
    decreases s.len(),
{
    if s.len() > 0 {
        assert(name_ok_spec(s.drop_last())) by {
            assert(forall|i: int|
                0 <= i < s.drop_last().len() ==> s.drop_last()[i] == #[trigger] s[i]);
        }
        lemma_doubled_no_newline(s.drop_last());
        assert(s.last() != 10);
    }
}

/// A row `x,y,name`: two number literals, then a name field, separated by
/// the first two commas.
pub open spec fn is_row(line: Seq<u8>) -> bool {
    let c1 = find_byte(line, 44);
    let rest = line.skip(c1 + 1);
    let c2 = find_byte(rest, 44);
    &&& c1 < line.len()
    &&& is_number(line.take(c1))
    &&& c2 < rest.len()
    &&& is_number(rest.take(c2))
    &&& is_name_field(rest.skip(c2 + 1))
}

/// The city a well-formed row denotes.
pub open spec fn row_val(line: Seq<u8>) -> CityV {
    let c1 = find_byte(line, 44);
    let rest = line.skip(c1 + 1);
    let c2 = find_byte(rest, 44);
    CityV {
        x: number_val(line.take(c1)),
        y: number_val(rest.take(c2)),
        name: name_field_val(rest.skip(c2 + 1)),
    }
}

/// Parses one row. Succeeds exactly on well-formed rows, returning the city
/// they denote, which always passes the store's validity checks.
pub fn parse_row(line: &Vec<u8>) -> (r: Result<City, Error>)
    ensures
        match r {
            Ok(c) => is_row(line@) && c@ == row_val(line@) && city_ok(c@),
            Err(e) => !is_row(line@) && e == Error::Parse,
        },
{
    let n = line.len();
    let c1 = find_in(line, 0, 44);
    proof {
        lemma_find_byte_at(line@, 44, c1 as int);
    }
    if c1 == n {
        return Err(Error::Parse);
    }
    let ghost rest = line@.skip(c1 + 1 as int);
    let c2a = find_in(line, c1 + 1, 44);
    proof {
        assert forall|j: int| 0 <= j < c2a - c1 - 1 implies rest[j] != 44 by {
            assert(rest[j] == line@[j + c1 + 1]);
        }
        if c2a < n {
            assert(rest[c2a - c1 - 1] == line@[c2a as int]);
        }
        lemma_find_byte_at(rest, 44, c2a - c1 - 1);
    }
    if c2a == n {
        return Err(Error::Parse);
    }
    let xf = sub_bytes(line, 0, c1);
    proof {
        assert(xf@ =~= line@.take(c1 as int));
    }
    let x = match parse_number(&xf) {
        Ok(v) => v,
        Err(e) => {
            return Err(e);
        },
    };
    let yf = sub_bytes(line, c1 + 1, c2a);
    proof {
        assert(yf@ =~= rest.take(c2a - c1 - 1 as int));
    }
    let y = match parse_number(&yf) {
        Ok(v) => v,
        Err(e) => {
            return Err(e);
        },
    };
    let nf = sub_bytes(line, c2a + 1, n);
    proof {
        assert(nf@ =~= rest.skip(c2a - c1 as int));
    }
    let name = match parse_name(&nf) {
        Ok(v) => v,
        Err(e) => {
            return Err(e);
        },
    };
    proof {
        lemma_name_field_no_newline(nf@);
    }
    Ok(City { x, y, name })
}

/// Renders one city as a row. What comes out always parses back to the same
/// city, and holds no line break.
pub fn format_row(c: &City) -> (line: Vec<u8>)
    requires
        city_ok(c@),
    ensures
        is_row(line@),
        row_val(line@) == c@,
        forall|i: int| 0 <= i < line@.len() ==> #[trigger] line@[i] != 10,
{
    let mut xf = format_number(c.x);
    let mut yf = format_number(c.y);
    let mut nf = format_name(&c.name);
    let ghost x0 = xf@;
    let ghost y0 = yf@;
    let ghost nf0 = nf@;
    let mut line: Vec<u8> = Vec::new();
    line.append(&mut xf);
    line.push(44);
    line.append(&mut yf);
    line.push(44);
    line.append(&mut nf);
    proof {
        let l = line@;
        assert(l =~= x0 + seq![44u8] + y0 + seq![44u8] + nf0);
        let d1 = x0.len() as int;
        assert forall|j: int| 0 <= j < d1 implies l[j] != 44 by {
            assert(l[j] == x0[j]);
            assert(x0[j] == 45 || x0[j] == 46 || is_digit(x0[j]));
        }
        assert(l[d1] == 44);
        lemma_find_byte_at(l, 44, d1);
        assert(l.take(d1) =~= x0);
        let rest = l.skip(d1 + 1);
        assert(rest =~= y0 + seq![44u8] + nf0);
        let d2 = y0.len() as int;
        assert forall|j: int| 0 <= j < d2 implies rest[j] != 44 by {
            assert(rest[j] == y0[j]);
            assert(y0[j] == 45 || y0[j] == 46 || is_digit(y0[j]));
        }
        assert(rest[d2] == 44);
        lemma_find_byte_at(rest, 44, d2);
        assert(rest.take(d2) =~= y0);
        assert(rest.skip(d2 + 1) =~= nf0);
        assert forall|i: int| 0 <= i < l.len() implies #[trigger] l[i] != 10 by {
            if i < d1 {
                assert(l[i] == x0[i]);
                assert(x0[i] == 45 || x0[i] == 46 || is_digit(x0[i]));
            } else if d1 + 1 <= i < d1 + 1 + d2 {
                assert(l[i] == y0[i - d1 - 1]);
                assert(y0[i - d1 - 1] == 45 || y0[i - d1 - 1] == 46 || is_digit(y0[i - d1 - 1]));
            } else if i >= d1 + 1 + d2 + 1 {
                assert(l[i] == nf0[i - d1 - d2 - 2]);
            }
        }
    }
    line
}

/// The pieces of `s` between its line breaks (the final piece may be empty
/// when `s` ends with a line break).
pub open spec fn split_lines(s: Seq<u8>) -> Seq<Seq<u8>>
    decreases s.len(),
{
    let d = find_byte(s, 10);
    if 0 <= d < s.len() {
        seq![s.take(d)] + split_lines(s.skip(d + 1))
    } else {
        seq![s]
    }
}

/// The rows of a document: its line pieces, with one trailing empty piece
/// (from a final line break) dropped.
pub open spec fn lines_of(s: Seq<u8>) -> Seq<Seq<u8>> {
    let ls = split_lines(s);
    if ls.len() > 0 && ls.last().len() == 0 {
        ls.drop_last()
    } else {
        ls
    }
}

pub open spec fn all_rows(ls: Seq<Seq<u8>>) -> bool {
    forall|i: int| 0 <= i < ls.len() ==> is_row(#[trigger] ls[i])
}

pub open spec fn rows_val(ls: Seq<Seq<u8>>) -> Seq<CityV> {
    ls.map_values(|l: Seq<u8>| row_val(l))
}

/// A document the loader accepts: every row well formed, at least one row,
/// within the capacity bound.
pub open spec fn loadable(s: Seq<u8>) -> bool {
    let ls = lines_of(s);
    &&& all_rows(ls)
    &&& 1 <= ls.len() <= MAX_CITIES as int
}

/// Splits `v` at every line break.
fn split_input(v: &Vec<u8>) -> (ps: Vec<Vec<u8>>)
    ensures
        ps@.map_values(|p: Vec<u8>| p@) == split_lines(v@),
        ps@.len() >= 1,
{
    let mut ps: Vec<Vec<u8>> = Vec::new();
    let n = v.len();
    let mut pos: usize = 0;
    proof {
        assert(v@.skip(0) =~= v@);
        assert(ps@.map_values(|p: Vec<u8>| p@) =~= Seq::<Seq<u8>>::empty());
        assert(Seq::<Seq<u8>>::empty() + split_lines(v@) =~= split_lines(v@));
    }
    #[verifier::loop_isolation(false)]
    loop
        invariant
            pos <= n,
            n == v@.len(),
            split_lines(v@) == ps@.map_values(|p: Vec<u8>| p@) + split_lines(v@.skip(pos as int)),
        decreases n - pos,
    {
        let ghost cur = v@.skip(pos as int);
        let ghost done = ps@.map_values(|p: Vec<u8>| p@);
        let q = find_in(v, pos, 10);
        proof {
            assert forall|j: int| 0 <= j < q - pos implies cur[j] != 10 by {
                assert(cur[j] == v@[j + pos]);
            }
            if q < n {
                assert(cur[q - pos] == v@[q as int]);
            }
            lemma_find_byte_at(cur, 10, q - pos);
        }
        let piece = sub_bytes(v, pos, q);
        proof {
            assert(piece@ =~= cur.take(q - pos));
        }
        ps.push(piece);
        proof {
            assert(ps@.map_values(|p: Vec<u8>| p@) =~= done.push(piece@));
        }
        if q == n {
            proof {
                assert(cur =~= piece@);
                assert(split_lines(cur) == seq![cur]);
                assert(done + seq![cur] =~= done.push(piece@));
            }
            return ps;
        }
        proof {
            assert(cur.skip(q - pos + 1) =~= v@.skip(q + 1 as int));
            assert(split_lines(cur) == seq![piece@] + split_lines(v@.skip(q + 1 as int)));
            assert(done + (seq![piece@] + split_lines(v@.skip(q + 1 as int))) =~= done.push(
                piece@,
            ) + split_lines(v@.skip(q + 1 as int)));
        }
        pos = q + 1;
    }
}

impl CityStore {
    /// Loads a store from tabular input: one `x,y,name` row per line, no
    /// header, a trailing final line break allowed. Fails with `Parse` when
    /// any row is malformed, with `EmptyDataset` when no rows were read, and
    /// with `InvalidSize` beyond the capacity bound.
    pub fn load(input: &Vec<u8>) -> (r: Result<CityStore, Error>)
        ensures
            match r {
                Ok(st) => {
                    &&& loadable(input@)
                    &&& st.wf()
                    &&& st@ == rows_val(lines_of(input@))
                },
                Err(e) => {
                    &&& !loadable(input@)
                    &&& e == (if !all_rows(lines_of(input@)) {
                        Error::Parse
                    } else if lines_of(input@).len() == 0 {
                        Error::EmptyDataset
                    } else {
                        Error::InvalidSize
                    })
                },
            },
    {
        let ghost ls = lines_of(input@);
        let mut ps = split_input(input);
        if ps[ps.len() - 1].len() == 0 {
            let _ = ps.pop();
        }
        proof {
            assert(ps@.map_values(|p: Vec<u8>| p@) =~= ls);
        }
        let mut cities: Vec<City> = Vec::new();
        let mut i: usize = 0;
        #[verifier::loop_isolation(false)]
        while i < ps.len()
            invariant
                cities@.len() == i,
                i <= ps@.len(),
                ps@.map_values(|p: Vec<u8>| p@) == ls,
                forall|j: int| 0 <= j < i ==> is_row(#[trigger] ls[j]),
                forall|j: int| 0 <= j < i ==> (#[trigger] cities@[j])@ == row_val(ls[j]),
                forall|j: int| 0 <= j < i ==> city_ok((#[trigger] cities@[j])@),
            decreases ps@.len() - i,
        {
            let c = match parse_row(&ps[i]) {
                Ok(c) => c,
                Err(_) => {
                    proof {
                        assert(ps@.map_values(|p: Vec<u8>| p@)[i as int] == ps@[i as int]@);
                        assert(!is_row(ls[i as int]));
                    }
                    return Err(Error::Parse);
                },
            };
            proof {
                assert(ps@.map_values(|p: Vec<u8>| p@)[i as int] == ps@[i as int]@);
            }
            cities.push(c);
            i += 1;
        }
        if cities.len() == 0 {
            return Err(Error::EmptyDataset);
        }
        if cities.len() > MAX_CITIES {
            return Err(Error::InvalidSize);
        }
        proof {
            let cv = cities@.map_values(|c: City| c@);
            assert forall|j: int| 0 <= j < cv.len() implies city_ok(#[trigger] cv[j]) by {
                assert(cv[j] == cities@[j]@);
            }
            assert(store_ok(cv));
        }
        let st = CityStore::from_checked(cities);
        proof {
            assert(st@ =~= rows_val(ls));
        }
        Ok(st)
    }
}

/// The rows joined back into one document, one line break after each row.
pub open spec fn join_lines(ls: Seq<Seq<u8>>) -> Seq<u8>
    decreases ls.len(),
{
    if ls.len() == 0 {
        Seq::empty()
    } else {
        join_lines(ls.drop_last()) + ls.last() + seq![10u8]
    }
}

/// `join_lines` can also be peeled from the front.
pub proof fn lemma_join_first(ls: Seq<Seq<u8>>)
    requires
        ls.len() > 0,
    ensures
        join_lines(ls) == ls[0] + seq![10u8] + join_lines(ls.drop_first()),
    decreases ls.len(),
{
    if ls.len() == 1 {
        assert(ls.drop_last() =~= Seq::<Seq<u8>>::empty());
        assert(ls.drop_first() =~= Seq::<Seq<u8>>::empty());
        assert(ls.last() == ls[0]);
        assert(join_lines(ls) =~= ls[0] + seq![10u8] + join_lines(ls.drop_first()));
    } else {
        lemma_join_first(ls.drop_last());
        assert(ls.drop_last()[0] == ls[0]);
        assert(ls.drop_last().drop_first() =~= ls.drop_first().drop_last());
        assert(ls.drop_first().last() == ls.last());
        assert(join_lines(ls) == (ls[0] + seq![10u8] + join_lines(ls.drop_first().drop_last()))
            + ls.last() + seq![10u8]);
        assert(join_lines(ls.drop_first()) == join_lines(ls.drop_first().drop_last())
            + ls.last() + seq![10u8]);
        assert((ls[0] + seq![10u8] + join_lines(ls.drop_first().drop_last())) + ls.last()
            + seq![10u8] =~= ls[0] + seq![10u8] + (join_lines(ls.drop_first().drop_last())
            + ls.last() + seq![10u8]));
    }
}

/// Splitting a joined document gives back the rows, plus the empty piece
/// after the final line break.
pub proof fn lemma_split_join(ls: Seq<Seq<u8>>)
    requires
        forall|j: int, b: int|
            0 <= j < ls.len() && 0 <= b < ls[j].len() ==> #[trigger] ls[j][b] != 10,
    ensures
        split_lines(join_lines(ls)) == ls.push(Seq::<u8>::empty()),
    decreases ls.len(),
{
    if ls.len() == 0 {
        let w = join_lines(ls);
        assert(w =~= Seq::<u8>::empty());
        assert(split_lines(w) == seq![w]);
        assert(seq![w] =~= ls.push(Seq::<u8>::empty()));
    } else {
        lemma_join_first(ls);
        assert(forall|j: int, b: int|
            0 <= j < ls.drop_first().len() && 0 <= b < ls.drop_first()[j].len()
                ==> #[trigger] ls.drop_first()[j][b] == ls[j + 1][b]);
        lemma_split_join(ls.drop_first());
        let w = join_lines(ls);
        let l0 = ls[0].len() as int;
        assert forall|j: int| 0 <= j < l0 implies w[j] != 10 by {
            assert(w[j] == ls[0][j]);
        }
        assert(w[l0] == 10);
        lemma_find_byte_at(w, 10, l0);
        assert(w.take(l0) =~= ls[0]);
        assert(w.skip(l0 + 1) =~= join_lines(ls.drop_first()));
        assert(split_lines(w) == seq![ls[0]] + split_lines(join_lines(ls.drop_first())));
        assert(seq![ls[0]] + ls.drop_first().push(Seq::<u8>::empty()) =~= ls.push(
            Seq::<u8>::empty(),
        ));
    }
}

impl CityStore {
    /// Writes the store as tabular output, one row per city in store order,
    /// each row closed by a line break. What is written always loads back as
    /// exactly this store.
    pub fn save(&self) -> (out: Vec<u8>)
        requires
            self.wf(),
        ensures
            loadable(out@),
            lines_of(out@).len() == self@.len(),
            rows_val(lines_of(out@)) == self@,
    {
        let ghost s = self@;
        let n = self.len();
        let mut out: Vec<u8> = Vec::new();
        let ghost mut rows: Seq<Seq<u8>> = Seq::empty();
        let mut i: usize = 0;
        #[verifier::loop_isolation(false)]
        while i < n
            invariant
                i <= n,
                rows.len() == i,
                out@ == join_lines(rows),
                forall|j: int|
                    0 <= j < i ==> is_row(#[trigger] rows[j]) && row_val(rows[j]) == s[j],
                forall|j: int, b: int|
                    0 <= j < i && 0 <= b < rows[j].len() ==> #[trigger] rows[j][b] != 10,
            decreases n - i,
        {
            let mut rb = format_row(self.city(i));
            let ghost rb0 = rb@;
            out.append(&mut rb);
            out.push(10);
            proof {
                let r_old = rows;
                rows = rows.push(rb0);
                assert(rows.drop_last() =~= r_old);
                assert(rows.last() == rb0);
                assert(out@ =~= join_lines(r_old) + rb0 + seq![10u8]);
            }
            i += 1;
        }
        proof {
            lemma_split_join(rows);
            let ls_all = rows.push(Seq::<u8>::empty());
            assert(ls_all.last().len() == 0);
            assert(ls_all.drop_last() =~= rows);
            assert(lines_of(out@) == rows);
            assert(rows_val(rows) =~= s);
        }
        out
    }
}

} // verus!
