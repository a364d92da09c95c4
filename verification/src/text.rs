//! Splitting a line of text into whitespace-separated tokens and reading
//! unsigned decimal numbers, as `str::split_whitespace` and `u32::from_str`
//! do.

use vstd::prelude::*;

verus! {

/// The characters with the Unicode `White_Space` property, which is what
/// `char::is_whitespace` tests and `str::split_whitespace` splits on.
pub open spec fn is_white(c: char) -> bool {
    let v = c as u32;
    ||| 0x09 <= v <= 0x0D
    ||| v == 0x20
    ||| v == 0x85
    ||| v == 0xA0
    ||| v == 0x1680
    ||| 0x2000 <= v <= 0x200A
    ||| v == 0x2028
    ||| v == 0x2029
    ||| v == 0x202F
    ||| v == 0x205F
    ||| v == 0x3000
}

/// The length of the run of non-white characters at the start of `s`.
pub open spec fn token_len(s: Seq<char>) -> nat
    decreases s.len(),
{
    if s.len() == 0 || is_white(s[0]) {
        0
    } else {
        1 + token_len(s.drop_first())
    }
}

/// A leading run of non-white characters is no longer than the text.
pub proof fn lemma_token_len_bound(s: Seq<char>)
    ensures
        token_len(s) <= s.len(),
    decreases s.len(),
{
    if s.len() > 0 && !is_white(s[0]) {
        lemma_token_len_bound(s.drop_first());
    }
}

/// The maximal runs of non-white characters of `s`, in order.
pub open spec fn tokens(s: Seq<char>) -> Seq<Seq<char>>
    decreases s.len(),
{
    if s.len() == 0 {
        seq![]
    } else if is_white(s[0]) {
        tokens(s.drop_first())
    } else {
        proof {
            lemma_token_len_bound(s);
        }
        seq![s.take(token_len(s) as int)] + tokens(s.skip(token_len(s) as int))
    }
}

/// `c` is an ASCII decimal digit.
pub open spec fn is_digit(c: char) -> bool {
    '0' as u32 <= c as u32 <= '9' as u32
}

/// Every character of `d` is a decimal digit.
pub open spec fn all_digits(d: Seq<char>) -> bool {
    forall|i: int| 0 <= i < d.len() ==> is_digit(#[trigger] d[i])
}

/// The value of the decimal digits `d` (most significant first).
pub open spec fn digits_value(d: Seq<char>) -> nat
    decreases d.len(),
{
    if d.len() == 0 {
        0
    } else {
        digits_value(d.drop_last()) * 10 + (d.last() as u32 - '0' as u32) as nat
    }
}

/// The number that `u32::from_str` reads from `t`: an optional `+`, then one
/// or more decimal digits whose value fits in a `u32`; `None` for any other
/// text.
pub open spec fn parse_u32(t: Seq<char>) -> Option<u32> {
    let d = if t.len() > 0 && t[0] == '+' {
        t.drop_first()
    } else {
        t
    };
    if d.len() > 0 && all_digits(d) && digits_value(d) <= u32::MAX {
        Some(digits_value(d) as u32)
    } else {
        None
    }
}

/// `char::is_whitespace`.
pub fn is_white_char(c: char) -> (r: bool)
    ensures
        r == is_white(c),
{
    let v: u32 = c as u32;
    (0x09 <= v && v <= 0x0D) || v == 0x20 || v == 0x85 || v == 0xA0 || v == 0x1680 || (0x2000 <= v
        && v <= 0x200A) || v == 0x2028 || v == 0x2029 || v == 0x202F || v == 0x205F || v == 0x3000
}

/// The characters of `s`, in order.
pub fn text_chars(s: &str) -> (cs: Vec<char>)
    ensures
        cs@ == s@,
{
    let mut cs: Vec<char> = Vec::new();
    for c in it: s.chars()
        invariant
            it.seq() == s@,
            cs@ == it.seq().take(it.index() as int),
    {
        cs.push(c);
    }
    cs
}

/// Dropping trailing digits never makes a number of digits larger.
pub proof fn lemma_digits_prefix_le(d: Seq<char>, k: int)
    requires
        0 <= k <= d.len(),
        forall|i: int| 0 <= i < d.len() ==> is_digit(#[trigger] d[i]),
    ensures
        digits_value(d.take(k)) <= digits_value(d),
    decreases d.len(),
{
    if k < d.len() {
        let e = d.drop_last();
        assert(e.take(k) =~= d.take(k));
        assert forall|i: int| 0 <= i < e.len() implies is_digit(#[trigger] e[i]) by {
            assert(e[i] == d[i]);
        }
        lemma_digits_prefix_le(e, k);
    } else {
        assert(d.take(k) =~= d);
    }
}

/// `u32::from_str` on the characters `cs[lo..hi]`.
pub fn parse_u32_chars(cs: &Vec<char>, lo: usize, hi: usize) -> (r: Option<u32>)
    requires
        lo <= hi <= cs@.len(),
    ensures
        r == parse_u32(cs@.subrange(lo as int, hi as int)),
{
    let ghost t = cs@.subrange(lo as int, hi as int);
    let mut p: usize = lo;
    if p < hi && cs[p] == '+' {
        p = p + 1;
    }
    let start: usize = p;
    let ghost d = cs@.subrange(start as int, hi as int);
    proof {
        if t.len() > 0 && t[0] == '+' {
            assert(d =~= t.drop_first());
        } else {
            assert(d =~= t);
        }
    }
    if p == hi {
        return None;
    }
    let mut v: u32 = 0;
    while p < hi
        invariant
            start <= p <= hi <= cs@.len(),
            start < hi,
            d == cs@.subrange(start as int, hi as int),
            t == cs@.subrange(lo as int, hi as int),
            d == (if t.len() > 0 && t[0] == '+' {
                t.drop_first()
            } else {
                t
            }),
            forall|k: int| start <= k < p ==> is_digit(#[trigger] cs@[k]),
            v == digits_value(cs@.subrange(start as int, p as int)),
        decreases hi - p,
    {
        let c: char = cs[p];
        let cv: u32 = c as u32;
        if cv < 48 || cv > 57 {
            proof {
                assert(d[p - start] == c);
                assert(!is_digit(d[p - start]));
                assert(!all_digits(d));
                assert(parse_u32(t) is None);
            }
            return None;
        }
        let ghost pre = cs@.subrange(start as int, p as int);
        let ghost ext = cs@.subrange(start as int, p + 1);
        proof {
            assert(ext.drop_last() =~= pre);
            assert(ext.last() == c);
        }
        let next: u64 = v as u64 * 10 + (cv - 48) as u64;
        if next > 4294967295u64 {
            proof {
                if all_digits(d) {
                    assert(d.take(p + 1 - start) =~= ext);
                    lemma_digits_prefix_le(d, p + 1 - start);
                    assert(digits_value(ext) == next);
                    assert(digits_value(d) > u32::MAX);
                }
                assert(parse_u32(t) is None);
            }
            return None;
        }
        v = next as u32;
        p = p + 1;
    }
    proof {
        assert(cs@.subrange(start as int, p as int) =~= d);
        assert forall|i: int| 0 <= i < d.len() implies is_digit(#[trigger] d[i]) by {
            assert(d[i] == cs@[start + i]);
        }
        assert(all_digits(d));
    }
    Some(v)
}

/// A white character at position `i` starts no token.
pub proof fn lemma_tokens_skip_white(s: Seq<char>, i: int)
    requires
        0 <= i < s.len(),
        is_white(s[i]),
    ensures
        tokens(s.skip(i)) == tokens(s.skip(i + 1)),
{
    assert(s.skip(i).drop_first() =~= s.skip(i + 1));
}

/// A run of non-white characters from `i` up to `j`, ended by the end of the
/// text or a white character, is the leading token there.
pub proof fn lemma_token_len_run(s: Seq<char>, i: int, j: int)
    requires
        0 <= i < j <= s.len(),
        forall|k: int| i <= k < j ==> !is_white(#[trigger] s[k]),
        j == s.len() || is_white(s[j]),
    ensures
        token_len(s.skip(i)) == j - i,
    decreases j - i,
{
    assert(s.skip(i).drop_first() =~= s.skip(i + 1));
    assert(s.skip(i)[0] == s[i]);
    assert(!is_white(s[i]));
    if i + 1 < j {
        lemma_token_len_run(s, i + 1, j);
    } else {
        if j < s.len() {
            assert(s.skip(j)[0] == s[j]);
        }
        assert(token_len(s.skip(j)) == 0);
    }
    assert(token_len(s.skip(i)) == 1 + token_len(s.skip(i + 1)));
}

/// Such a run is the first of the tokens from `i` on; the rest are those
/// from `j` on.
pub proof fn lemma_tokens_skip_token(s: Seq<char>, i: int, j: int)
    requires
        0 <= i < j <= s.len(),
        forall|k: int| i <= k < j ==> !is_white(#[trigger] s[k]),
        j == s.len() || is_white(s[j]),
    ensures
        tokens(s.skip(i)) == seq![s.subrange(i, j)] + tokens(s.skip(j)),
{
    lemma_token_len_run(s, i, j);
    assert(s.skip(i)[0] == s[i]);
    assert(s.skip(i).take(j - i) =~= s.subrange(i, j));
    assert(s.skip(i).skip(j - i) =~= s.skip(j));
}

/// The decimal digit character for `d` (0 to 9).
pub open spec fn digit_char(d: nat) -> char {
    if d == 0 {
        '0'
    } else if d == 1 {
        '1'
    } else if d == 2 {
        '2'
    } else if d == 3 {
        '3'
    } else if d == 4 {
        '4'
    } else if d == 5 {
        '5'
    } else if d == 6 {
        '6'
    } else if d == 7 {
        '7'
    } else if d == 8 {
        '8'
    } else {
        '9'
    }
}

/// The decimal writing of `v`, without leading zeros.
pub open spec fn decimal(v: nat) -> Seq<char>
    decreases v,
{
    if v < 10 {
        seq![digit_char(v)]
    } else {
        decimal(v / 10).push(digit_char(v % 10))
    }
}

/// `z` zero characters.
pub open spec fn zeros(z: nat) -> Seq<char> {
    Seq::new(z, |i: int| '0')
}

/// A digit character stands for the value it is written for.
proof fn lemma_digit_char(d: nat)
    requires
        d < 10,
    ensures
        is_digit(digit_char(d)),
        (digit_char(d) as u32 - '0' as u32) as nat == d,
{
}

/// A digit stands for the value that writes it back.
proof fn lemma_char_digit(c: char)
    requires
        is_digit(c),
    ensures
        digit_char((c as u32 - '0' as u32) as nat) == c,
{
    let v = c as u32;
    if v == 48 {} else if v == 49 {} else if v == 50 {} else if v == 51 {} else if v == 52 {}
    else if v == 53 {} else if v == 54 {} else if v == 55 {} else if v == 56 {} else {}
}

/// Leading zeros add nothing to a number.
proof fn lemma_zeros_value(z: nat, d: Seq<char>)
    ensures
        digits_value(zeros(z) + d) == digits_value(d),
    decreases d.len(), z,
{
    if d.len() == 0 {
        assert(zeros(z) + d =~= zeros(z));
        if z > 0 {
            assert(zeros(z).drop_last() =~= zeros((z - 1) as nat));
            lemma_zeros_value((z - 1) as nat, d);
            assert(zeros((z - 1) as nat) + d =~= zeros((z - 1) as nat));
        }
    } else {
        assert((zeros(z) + d).drop_last() =~= zeros(z) + d.drop_last());
        lemma_zeros_value(z, d.drop_last());
    }
}

/// The decimal writing of `v` is made of digits worth `v`.
proof fn lemma_decimal_value(v: nat)
    ensures
        all_digits(decimal(v)),
        decimal(v).len() > 0,
        digits_value(decimal(v)) == v,
    decreases v,
{
    if v < 10 {
        lemma_digit_char(v);
        assert(decimal(v).drop_last() =~= Seq::<char>::empty());
        assert(digits_value(Seq::<char>::empty()) == 0);
        assert(decimal(v).last() == digit_char(v));
        assert(digits_value(decimal(v)) == digits_value(decimal(v).drop_last()) * 10 + (digit_char(v) as u32 - '0' as u32) as nat);
    } else {
        lemma_decimal_value(v / 10);
        lemma_digit_char(v % 10);
        assert(decimal(v).drop_last() =~= decimal(v / 10));
        assert(decimal(v).last() == digit_char(v % 10));
        assert(v == (v / 10) * 10 + v % 10);
        assert(digits_value(decimal(v)) == digits_value(decimal(v).drop_last()) * 10 + (digit_char(v % 10) as u32 - '0' as u32) as nat);
        assert forall|i: int| 0 <= i < decimal(v).len() implies is_digit(#[trigger] decimal(v)[i]) by {
            if i < decimal(v / 10).len() {
                assert(decimal(v)[i] == decimal(v / 10)[i]);
            }
        }
    }
}

/// Digits worth nothing are all zeros.
proof fn lemma_zero_value_zeros(e: Seq<char>)
    requires
        all_digits(e),
        digits_value(e) == 0,
    ensures
        e == zeros(e.len()),
    decreases e.len(),
{
    if e.len() > 0 {
        let f = e.drop_last();
        assert(all_digits(f)) by {
            assert forall|i: int| 0 <= i < f.len() implies is_digit(#[trigger] f[i]) by {
                assert(f[i] == e[i]);
            }
        }
        assert(is_digit(e[e.len() - 1]));
        lemma_zero_value_zeros(f);
        lemma_char_digit(e.last());
        assert(e.last() == '0');
        assert forall|i: int| 0 <= i < e.len() implies e[i] == zeros(e.len())[i] by {
            if i < f.len() {
                assert(e[i] == f[i]);
            }
        }
        assert(e =~= zeros(e.len()));
    }
}

/// Digits worth `v` are the decimal writing of `v` after some zeros.
proof fn lemma_digits_are_decimal(d: Seq<char>) -> (z: nat)
    requires
        d.len() > 0,
        all_digits(d),
    ensures
        d == zeros(z) + decimal(digits_value(d)),
    decreases d.len(),
{
    let e = d.drop_last();
    let c = d.last();
    assert(is_digit(d[d.len() - 1]));
    lemma_char_digit(c);
    let dig = (c as u32 - '0' as u32) as nat;
    assert(all_digits(e)) by {
        assert forall|i: int| 0 <= i < e.len() implies is_digit(#[trigger] e[i]) by {
            assert(e[i] == d[i]);
        }
    }
    let v = digits_value(d);
    assert(v == digits_value(e) * 10 + dig);
    if v < 10 {
        assert(digits_value(e) == 0);
        lemma_zero_value_zeros(e);
        assert(v == dig);
        assert(d =~= zeros(e.len()) + decimal(v));
        e.len()
    } else {
        assert(v / 10 == digits_value(e) && v % 10 == dig) by (nonlinear_arith)
            requires
                v == digits_value(e) * 10 + dig,
                dig < 10,
        ;
        if e.len() == 0 {
            assert(false);
            0
        } else {
            let z = lemma_digits_are_decimal(e);
            assert(d =~= e.push(c));
            assert(decimal(v) == decimal(v / 10).push(digit_char(v % 10)));
            assert(digit_char(v % 10) == c);
            assert(d =~= zeros(z) + decimal(v));
            z
        }
    }
}

/// Reading a number back: a decimal writing, after an optional `+` and any
/// number of zeros, reads as the number it writes; and every text that reads
/// as a number is of that form.
pub proof fn lemma_parse_u32_reads_decimal(v: u32, z: nat, t: Seq<char>)
    ensures
        parse_u32(zeros(z) + decimal(v as nat)) == Some(v),
        parse_u32(seq!['+'] + zeros(z) + decimal(v as nat)) == Some(v),
        parse_u32(t) == Some(v) ==> exists|z1: nat|
            t == zeros(z1) + decimal(v as nat) || t == seq!['+'] + zeros(z1) + decimal(v as nat),
{
    lemma_decimal_value(v as nat);
    lemma_zeros_value(z, decimal(v as nat));
    let d = zeros(z) + decimal(v as nat);
    assert(all_digits(d)) by {
        assert forall|i: int| 0 <= i < d.len() implies is_digit(#[trigger] d[i]) by {
            if i >= z {
                assert(d[i] == decimal(v as nat)[i - z]);
            }
        }
    }
    assert(d[0] != '+') by {
        assert(is_digit(d[0]));
    }
    assert((seq!['+'] + d).drop_first() =~= d);
    assert(seq!['+'] + zeros(z) + decimal(v as nat) =~= seq!['+'] + d);
    if parse_u32(t) == Some(v) {
        let dd = if t.len() > 0 && t[0] == '+' {
            t.drop_first()
        } else {
            t
        };
        let z1 = lemma_digits_are_decimal(dd);
        assert(digits_value(dd) == v as nat);
        if t.len() > 0 && t[0] == '+' {
            assert(t =~= seq!['+'] + dd);
            assert(t =~= seq!['+'] + zeros(z1) + decimal(v as nat));
        } else {
            assert(t == zeros(z1) + decimal(v as nat));
        }
    }
}

} // verus!
