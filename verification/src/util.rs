//! Codepoint-indexed string helpers.
//!
//! Positions in this crate count Unicode codepoints, while an externally
//! produced parse tree addresses text by UTF-8 byte offsets. These helpers
//! translate between the two and cut strings at codepoint indices.

use vstd::prelude::*;

verus! {

/// The number of bytes of the UTF-8 encoding of `c`.
pub open spec fn char_utf8_width(c: char) -> nat {
    if (c as u32) < 0x80 {
        1
    } else if (c as u32) < 0x800 {
        2
    } else if (c as u32) < 0x10000 {
        3
    } else {
        4
    }
}

/// The number of bytes of the UTF-8 encoding of `s`.
pub open spec fn byte_len(s: Seq<char>) -> nat
    decreases s.len(),
{
    if s.len() == 0 {
        0
    } else {
        char_utf8_width(s[0]) + byte_len(s.subrange(1, s.len() as int))
    }
}

/// The codepoint index standing at byte offset `b` of `s`, if `b` falls on a
/// codepoint boundary (the end of the string included), and nothing otherwise.
pub open spec fn byte_to_cp_spec(s: Seq<char>, b: int) -> Option<int>
    decreases s.len(),
{
    if b == 0 {
        Some(0int)
    } else if s.len() == 0 {
        None
    } else if b < char_utf8_width(s[0]) {
        None
    } else {
        match byte_to_cp_spec(s.subrange(1, s.len() as int), b - char_utf8_width(s[0])) {
            Some(k) => Some(k + 1),
            None => None,
        }
    }
}

/// Byte length distributes over concatenation.
pub proof fn lemma_byte_len_concat(a: Seq<char>, b: Seq<char>)
    ensures
        byte_len(a + b) == byte_len(a) + byte_len(b),
    decreases a.len(),
{
    if a.len() == 0 {
        assert(a + b =~= b);
    } else {
        lemma_byte_len_concat(a.subrange(1, a.len() as int), b);
        assert((a + b).subrange(1, (a + b).len() as int) =~= a.subrange(1, a.len() as int) + b);
    }
}

/// A prefix never takes more bytes than the whole.
pub proof fn lemma_byte_len_prefix(s: Seq<char>, i: int)
    requires
        0 <= i <= s.len(),
    ensures
        byte_len(s.subrange(0, i)) <= byte_len(s),
{
    lemma_byte_len_concat(s.subrange(0, i), s.subrange(i, s.len() as int));
    assert(s.subrange(0, i) + s.subrange(i, s.len() as int) =~= s);
}

/// A byte offset that falls on a boundary names a codepoint index within
/// the string, the end included.
pub proof fn lemma_b2c_bound(s: Seq<char>, b: int)
    ensures
        (match byte_to_cp_spec(s, b) {
            Some(k) => 0 <= k <= s.len(),
            None => true,
        }),
    decreases s.len(),
{
    if b != 0 && s.len() != 0 && b >= char_utf8_width(s[0]) {
        lemma_b2c_bound(s.subrange(1, s.len() as int), b - char_utf8_width(s[0]));
    }
}

/// The number of bytes of the UTF-8 encoding of `c`.
pub fn char_width(c: char) -> (r: usize)
    ensures
        r == char_utf8_width(c),
{
    let u = c as u32;
    if u < 0x80 {
        1
    } else if u < 0x800 {
        2
    } else if u < 0x10000 {
        3
    } else {
        4
    }
}

/// Returns the byte index of the `cp`th Unicode codepoint in `s`,
/// or `None` if the supplied index is out of range.
///
/// If `cp` is equal to the length of `s` in chars, returns the number
/// of bytes in `s`. This is useful for anchor and cursor manipulations.
pub fn cp_index_to_byte(s: &str, cp: usize) -> (r: Option<usize>)
    requires
        byte_len(s@) <= usize::MAX,
    ensures
        cp <= s@.len() ==> r == Some((byte_len(s@.subrange(0, cp as int)) as usize)),
        cp > s@.len() ==> r is None,
{
    let n = s.unicode_len();
    if cp > n {
        return None;
    }
    let mut acc: usize = 0;
    let mut i: usize = 0;
    while i < cp
        invariant
            i <= cp <= n,
            n == s@.len(),
            byte_len(s@) <= usize::MAX,
            acc == byte_len(s@.subrange(0, i as int)),
        decreases cp - i,
    {
        let c = s.get_char(i);
        proof {
            let one = seq![s@[i as int]];
            lemma_byte_len_concat(s@.subrange(0, i as int), one);
            assert(s@.subrange(0, i as int) + one =~= s@.subrange(0, i + 1));
            assert(one.subrange(1, 1) =~= Seq::<char>::empty());
            assert(byte_len(Seq::<char>::empty()) == 0);
            assert(byte_len(one) == char_utf8_width(s@[i as int]));
            lemma_byte_len_prefix(s@, i + 1);
        }
        acc = acc + char_width(c);
        i = i + 1;
    }
    Some(acc)
}

/// Returns the codepoint index corresponding to byte offset `byte`
/// in string `s`, or `None` if the byte offset is out of range or does
/// not fall on a codepoint boundary.
///
/// If `byte` is equal to the length of `s` in bytes, returns the number
/// of characters in `s`.
pub fn byte_index_to_cp(s: &str, byte: usize) -> (r: Option<usize>)
    ensures
        (match r {
            Some(k) => byte_to_cp_spec(s@, byte as int) == Some(k as int),
            None => byte_to_cp_spec(s@, byte as int) is None,
        }),
{
    let n = s.unicode_len();
    let mut rem: usize = byte;
    let mut i: usize = 0;
    proof {
        assert(s@.subrange(0, n as int) =~= s@);
    }
    while i < n
        invariant
            i <= n,
            n == s@.len(),
            (match byte_to_cp_spec(s@.subrange(i as int, n as int), rem as int) {
                Some(k) => byte_to_cp_spec(s@, byte as int) == Some(k + i),
                None => byte_to_cp_spec(s@, byte as int) is None,
            }),
        decreases n - i,
    {
        if rem == 0 {
            return Some(i);
        }
        let c = s.get_char(i);
        let w = char_width(c);
        proof {
            let cur = s@.subrange(i as int, n as int);
            assert(cur[0] == s@[i as int]);
            assert(cur.subrange(1, cur.len() as int) =~= s@.subrange(i + 1, n as int));
        }
        if rem < w {
            return None;
        }
        rem = rem - w;
        i = i + 1;
    }
    proof {
        assert(s@.subrange(n as int, n as int) =~= Seq::<char>::empty());
    }
    if rem == 0 {
        Some(n)
    } else {
        None
    }
}

/// The character for one decimal digit.
pub open spec fn digit_char(d: nat) -> char {
    if d == 0 {
        '0'
    } else if d == 1 {
        '1'
    } else if d == 2 {
        '2'
    } else if d == 3 {
        '3'
    } else if d == 4 {
        '4'
    } else if d == 5 {
        '5'
    } else if d == 6 {
        '6'
    } else if d == 7 {
        '7'
    } else if d == 8 {
        '8'
    } else {
        '9'
    }
}

/// The decimal rendering of `n`, most significant digit first, with no
/// leading zeros (except for zero itself).
pub open spec fn dec_spec(n: nat) -> Seq<char>
    decreases n,
{
    if n < 10 {
        seq![digit_char(n)]
    } else {
        dec_spec(n / 10).push(digit_char(n % 10))
    }
}

/// One decimal digit as text.
fn digit_str(d: usize) -> (r: &'static str)
    requires
        d < 10,
    ensures
        r@ == seq![digit_char(d as nat)],
{
    proof {
        reveal_strlit("0");
        reveal_strlit("1");
        reveal_strlit("2");
        reveal_strlit("3");
        reveal_strlit("4");
        reveal_strlit("5");
        reveal_strlit("6");
        reveal_strlit("7");
        reveal_strlit("8");
        reveal_strlit("9");
        assert("0"@ =~= seq!['0']);
        assert("1"@ =~= seq!['1']);
        assert("2"@ =~= seq!['2']);
        assert("3"@ =~= seq!['3']);
        assert("4"@ =~= seq!['4']);
        assert("5"@ =~= seq!['5']);
        assert("6"@ =~= seq!['6']);
        assert("7"@ =~= seq!['7']);
        assert("8"@ =~= seq!['8']);
        assert("9"@ =~= seq!['9']);
    }
    if d == 0 {
        "0"
    } else if d == 1 {
        "1"
    } else if d == 2 {
        "2"
    } else if d == 3 {
        "3"
    } else if d == 4 {
        "4"
    } else if d == 5 {
        "5"
    } else if d == 6 {
        "6"
    } else if d == 7 {
        "7"
    } else if d == 8 {
        "8"
    } else {
        "9"
    }
}

/// Renders `n` in decimal.
pub fn usize_to_string(n: usize) -> (r: String)
    ensures
        r@ == dec_spec(n as nat),
    decreases n,
{
    if n < 10 {
        digit_str(n).to_owned()
    } else {
        proof {
            assert(n / 10 < n) by (nonlinear_arith)
                requires
                    n >= 10,
            ;
        }
        let mut s = usize_to_string(n / 10);
        s.append(digit_str(n % 10));
        proof {
            assert(s@ =~= dec_spec(n as nat));
        }
        s
    }
}

/// Returns the substring of `s` starting at Unicode codepoint index `start`
/// and extending for `len` codepoints. Both bounds are clamped to the end
/// of the string.
pub fn substring<'a>(s: &'a str, start: usize, len: usize) -> (r: &'a str)
    ensures
        r@ == s@.subrange(
            if start <= s@.len() {
                start as int
            } else {
                s@.len() as int
            },
            if start + len <= s@.len() {
                start + len
            } else {
                s@.len() as int
            },
        ),
{
    let n = s.unicode_len();
    let a = if start > n {
        n
    } else {
        start
    };
    let l = if len > n - a {
        n - a
    } else {
        len
    };
    s.substring_char(a, a + l)
}

/// Returns the slice of `s` between codepoint indices `from` and `to`,
/// both clamped to the end of the string.
pub fn slice<'a>(s: &'a str, from: usize, to: usize) -> (r: &'a str)
    requires
        from <= to,
    ensures
        r@ == s@.subrange(
            if from <= s@.len() {
                from as int
            } else {
                s@.len() as int
            },
            if to <= s@.len() {
                to as int
            } else {
                s@.len() as int
            },
        ),
{
    substring(s, from, to - from)
}

/// Inserts all items of `s` into `v` starting at index `offset`.
///
/// Inserting nothing is a no-op whatever the offset, and everything can be
/// inserted into an empty vector whatever the offset; otherwise the offset
/// must not pass the end of `v`.
pub fn push_all_at<T: Copy>(v: &mut Vec<T>, offset: usize, s: &[T])
    requires
        offset <= old(v)@.len() || s@.len() == 0 || old(v)@.len() == 0,
    ensures
        s@.len() == 0 ==> final(v)@ == old(v)@,
        old(v)@.len() == 0 ==> final(v)@ == s@,
        offset <= old(v)@.len() ==> final(v)@ == old(v)@.subrange(0, offset as int) + s@ + old(
            v,
        )@.subrange(offset as int, old(v)@.len() as int),
{
    if s.len() == 0 {
        return ;
    }
    let offset = if v.len() == 0 {
        0
    } else {
        offset
    };
    proof {
        if old(v)@.len() == 0 {
            assert(old(v)@.subrange(0, 0) =~= Seq::<T>::empty());
        }
    }
    let mut j: usize = 0;
    proof {
        assert(v@ =~= old(v)@.subrange(0, offset as int) + s@.subrange(0, 0) + old(v)@.subrange(
            offset as int,
            old(v)@.len() as int,
        ));
    }
    while j < s.len()
        invariant
            j <= s@.len(),
            offset <= old(v)@.len(),
            v@ == old(v)@.subrange(0, offset as int) + s@.subrange(0, j as int) + old(
                v,
            )@.subrange(offset as int, old(v)@.len() as int),
        decreases s@.len() - j,
    {
        let len = v.len();
        assert(offset + j <= len);
        v.insert(offset + j, s[j]);
        proof {
            assert(v@ =~= old(v)@.subrange(0, offset as int) + s@.subrange(0, j + 1) + old(
                v,
            )@.subrange(offset as int, old(v)@.len() as int));
        }
        j = j + 1;
    }
    proof {
        assert(v@ =~= old(v)@.subrange(0, offset as int) + s@ + old(v)@.subrange(
            offset as int,
            old(v)@.len() as int,
        ));
        if old(v)@.len() == 0 {
            assert(v@ =~= s@);
        }
    }
}

} // verus!
