//! Texts: their length in bytes, where they may be cut, and the decimal
//! text of an integer.

use vstd::prelude::*;
use vstd::utf8::*;

verus! {

/// The number of bytes that `s` takes when encoded as UTF-8.
pub open spec fn utf8_len(s: Seq<char>) -> nat {
    encode_utf8(s).len()
}

/// Encoding distributes over concatenation.
pub proof fn lemma_encode_concat(a: Seq<char>, b: Seq<char>)
    ensures
        encode_utf8(a + b) == encode_utf8(a) + encode_utf8(b),
    decreases a.len(),
{
    if a.len() == 0 {
        assert(a + b =~= b);
        assert(encode_utf8(a) + encode_utf8(b) =~= encode_utf8(b));
    } else {
        lemma_encode_concat(a.drop_first(), b);
        assert((a + b).drop_first() =~= a.drop_first() + b);
        assert(encode_utf8(a + b) =~= encode_utf8(a) + encode_utf8(b));
    }
}

/// Every character takes at least one byte and at most four.
pub proof fn lemma_utf8_len_bounds(s: Seq<char>)
    ensures
        s.len() <= utf8_len(s) <= 4 * s.len(),
    decreases s.len(),
{
    if s.len() > 0 {
        lemma_utf8_len_bounds(s.drop_first());
    }
}

/// The end of an encoded prefix is a character boundary of the whole.
pub proof fn lemma_prefix_is_boundary(a: Seq<char>, b: Seq<char>)
    ensures
        is_char_boundary(encode_utf8(a + b), utf8_len(a) as int),
    decreases a.len(),
{
    let whole = a + b;
    encode_utf8_valid_utf8(whole);
    if a.len() == 0 {
    } else {
        encode_utf8_first_scalar(whole);
        assert(whole.drop_first() =~= a.drop_first() + b);
        assert(pop_first_scalar(encode_utf8(whole)) =~= encode_utf8(whole.drop_first()));
        lemma_prefix_is_boundary(a.drop_first(), b);
        lemma_encode_concat(a, b);
    }
}

/// One more character lengthens the encoding of a prefix by that
/// character's own encoding.
pub proof fn lemma_utf8_len_step(s: Seq<char>, n: int)
    requires
        0 <= n < s.len(),
    ensures
        utf8_len(s.take(n + 1)) == utf8_len(s.take(n)) + encode_scalar(s[n] as u32).len(),
        utf8_len(s.take(n + 1)) <= utf8_len(s),
{
    let one = seq![s[n]];
    assert(s.take(n + 1) =~= s.take(n) + one);
    lemma_encode_concat(s.take(n), one);
    assert(one.drop_first() =~= Seq::<char>::empty());
    assert(encode_utf8(one.drop_first()) =~= Seq::<u8>::empty());
    assert(encode_utf8(one) =~= encode_scalar(one[0] as u32) + encode_utf8(one.drop_first()));
    assert(encode_utf8(one) =~= encode_scalar(s[n] as u32));
    assert(s =~= s.take(n + 1) + s.skip(n + 1));
    lemma_encode_concat(s.take(n + 1), s.skip(n + 1));
}

/// A prefix of `s` is determined by the number of bytes it takes.
pub proof fn lemma_prefix_unique(s: Seq<char>, p: Seq<char>, q: Seq<char>, n: int)
    requires
        p + q == s,
        0 <= n <= s.len(),
        utf8_len(p) == utf8_len(s.take(n)),
    ensures
        p == s.take(n),
        q == s.skip(n),
{
    let m = p.len() as int;
    assert(p =~= s.take(m));
    assert(q =~= s.skip(m));
    if m < n {
        let d = s.subrange(m, n);
        assert(s.take(n) =~= s.take(m) + d);
        lemma_encode_concat(s.take(m), d);
        lemma_utf8_len_bounds(d);
    } else if n < m {
        let d = s.subrange(n, m);
        assert(s.take(m) =~= s.take(n) + d);
        lemma_encode_concat(s.take(n), d);
        lemma_utf8_len_bounds(d);
    }
}

/// The byte length of a string slice, with the bound that it carries.
pub fn byte_len(s: &str) -> (r: usize)
    ensures
        r == utf8_len(s@),
{
    s.as_bytes().len()
}

/// [`String::push`] appends the character to the end of the string.
pub assume_specification[ std::string::String::push ](s: &mut std::string::String, ch: char)
    ensures
        final(s)@ == old(s)@.push(ch),
;

/// [`String::pop`] takes the last character off the string and returns it,
/// or returns nothing where the string is empty.
pub assume_specification[ std::string::String::pop ](s: &mut std::string::String) -> (r: Option<
    char,
>)
    ensures
        match r {
            Some(c) => old(s)@ == final(s)@.push(c),
            None => old(s)@.len() == 0 && final(s)@.len() == 0,
        },
;

/// The character of the decimal digit `d`.
pub open spec fn digit(d: int) -> char {
    if d == 0 {
        '0'
    } else if d == 1 {
        '1'
    } else if d == 2 {
        '2'
    } else if d == 3 {
        '3'
    } else if d == 4 {
        '4'
    } else if d == 5 {
        '5'
    } else if d == 6 {
        '6'
    } else if d == 7 {
        '7'
    } else if d == 8 {
        '8'
    } else {
        '9'
    }
}

/// The decimal digits of `n`, without leading zeros.
pub open spec fn digits(n: nat) -> Seq<char>
    decreases n,
{
    if n < 10 {
        seq![digit(n as int)]
    } else {
        digits(n / 10).push(digit((n % 10) as int))
    }
}

/// The decimal text of `i`: its digits, behind a `-` where it is negative.
pub open spec fn decimal(i: int) -> Seq<char> {
    if i < 0 {
        seq!['-'] + digits((-i) as nat)
    } else {
        digits(i as nat)
    }
}

/// The character of a decimal digit.
fn digit_char(d: u128) -> (c: char)
    requires
        d < 10,
    ensures
        c == digit(d as int),
{
    if d == 0 {
        '0'
    } else if d == 1 {
        '1'
    } else if d == 2 {
        '2'
    } else if d == 3 {
        '3'
    } else if d == 4 {
        '4'
    } else if d == 5 {
        '5'
    } else if d == 6 {
        '6'
    } else if d == 7 {
        '7'
    } else if d == 8 {
        '8'
    } else {
        '9'
    }
}

/// The decimal text of an integer.
pub fn render_integer(i: i128) -> (r: String)
    ensures
        r@ == decimal(i as int),
{
    let magnitude: u128 = if i < 0 {
        (-(i + 1)) as u128 + 1
    } else {
        i as u128
    };
    let mut reversed: Vec<char> = Vec::new();
    let ghost mut tail: Seq<char> = Seq::empty();
    let mut rest = magnitude;
    loop
        invariant_except_break
            digits(magnitude as nat) == digits(rest as nat) + tail,
            tail.len() == reversed@.len(),
            forall|k: int| 0 <= k < tail.len() ==> reversed@[k] == tail[tail.len() - 1 - k],
        ensures
            digits(magnitude as nat) == tail,
            tail.len() == reversed@.len(),
            forall|k: int| 0 <= k < tail.len() ==> reversed@[k] == tail[tail.len() - 1 - k],
        decreases rest,
    {
        let c = digit_char(rest % 10);
        reversed.push(c);
        proof {
            let before = tail;
            tail = seq![c] + tail;
            if rest < 10 {
                assert(digits(rest as nat) + before =~= tail);
            } else {
                assert(digits(rest as nat) + before =~= digits((rest / 10) as nat) + tail);
            }
        }
        if rest < 10 {
            break ;
        }
        rest = rest / 10;
    }
    let mut out = String::new();
    if i < 0 {
        out.push('-');
    }
    let ghost sign = out@;
    let mut k = reversed.len();
    while k > 0
        invariant
            k <= reversed@.len(),
            tail.len() == reversed@.len(),
            forall|k: int| 0 <= k < tail.len() ==> reversed@[k] == tail[tail.len() - 1 - k],
            out@ == sign + tail.take(tail.len() - k),
        decreases k,
    {
        k = k - 1;
        out.push(reversed[k]);
        assert(out@ =~= sign + tail.take(tail.len() - k));
    }
    assert(tail.take(tail.len() as int) =~= tail);
    assert(Seq::<char>::empty() + tail =~= tail);
    out
}

} // verus!
