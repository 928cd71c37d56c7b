//! Character-level helpers over `str` and `String`.
use vstd::prelude::*;
use vstd::string::{StrSliceExecFns, StringExecFns};
use vstd::utf8::{char_is_scalar, encode_scalar, encode_utf8};

verus! {

broadcast use vstd::string::group_string_axioms;

/// The characters of `s`, in order.
pub fn chars_of(s: &str) -> (v: Vec<char>)
    ensures
        v@ == s@,
{
    let mut v: Vec<char> = Vec::new();
    for c in it: s.chars()
        invariant
            v@ == it.seq().take(it.index() as int),
    {
        v.push(c);
    }
    v
}

/// Number of bytes that `c` takes in UTF-8.
pub open spec fn utf8_width(c: char) -> nat {
    if (c as u32) <= 0x7f {
        1
    } else if (c as u32) <= 0x7ff {
        2
    } else if (c as u32) <= 0xffff {
        3
    } else {
        4
    }
}

proof fn lemma_encode_scalar_len(c: char)
    ensures
        encode_scalar(c as u32).len() == utf8_width(c),
{
    char_is_scalar(c);
}

/// Appending a character adds its width to the length of the UTF-8 encoding.
pub proof fn lemma_encode_utf8_len_push(s: Seq<char>, c: char)
    ensures
        encode_utf8(s.push(c)).len() == encode_utf8(s).len() + utf8_width(c),
    decreases s.len(),
{
    if s.len() == 0 {
        lemma_encode_scalar_len(c);
        assert(s.push(c).drop_first() =~= Seq::<char>::empty());
        assert(encode_utf8(Seq::<char>::empty()) =~= Seq::<u8>::empty());
    } else {
        lemma_encode_scalar_len(s[0]);
        assert(s.push(c).drop_first() =~= s.drop_first().push(c));
        lemma_encode_utf8_len_push(s.drop_first(), c);
    }
}

/// A prefix never takes more bytes than the whole sequence.
pub proof fn lemma_encode_utf8_len_prefix(s: Seq<char>, i: int)
    requires
        0 <= i <= s.len(),
    ensures
        encode_utf8(s.take(i)).len() <= encode_utf8(s).len(),
    decreases s.len() - i,
{
    if i < s.len() {
        assert(s.take(i + 1) =~= s.take(i).push(s[i]));
        lemma_encode_utf8_len_push(s.take(i), s[i]);
        lemma_encode_utf8_len_prefix(s, i + 1);
    } else {
        assert(s.take(i) =~= s);
    }
}

/// Whether the UTF-8 encoding of `chars` is exactly `target` bytes long.
pub(crate) fn utf8_len_is(chars: &Vec<char>, target: usize) -> (r: bool)
    requires
        target <= 0x1_0000,
    ensures
        r == (encode_utf8(chars@).len() == target),
{
    let n = chars.len();
    let mut total: usize = 0;
    let mut i: usize = 0;
    assert(chars@.take(0) =~= Seq::<char>::empty());
    assert(encode_utf8(Seq::<char>::empty()) =~= Seq::<u8>::empty());
    while i < n
        invariant
            n == chars@.len(),
            i <= n,
            total <= target,
            target <= 0x1_0000,
            total == encode_utf8(chars@.take(i as int)).len(),
        decreases n - i,
    {
        let c = chars[i];
        let cu = c as u32;
        let w: usize = if cu <= 0x7f {
            1
        } else if cu <= 0x7ff {
            2
        } else if cu <= 0xffff {
            3
        } else {
            4
        };
        proof {
            assert(chars@.take(i + 1) =~= chars@.take(i as int).push(c));
            lemma_encode_utf8_len_push(chars@.take(i as int), c);
        }
        total = total + w;
        i = i + 1;
        if total > target {
            proof {
                lemma_encode_utf8_len_prefix(chars@, i as int);
            }
            return false;
        }
    }
    assert(chars@.take(n as int) =~= chars@);
    total == target
}


/// The Unicode `White_Space` property, which `char::is_whitespace` and `str::trim` use.
pub open spec fn is_white_space(c: char) -> bool {
    let u = c as u32;
    ||| 0x9 <= u <= 0xd
    ||| u == 0x20
    ||| u == 0x85
    ||| u == 0xa0
    ||| u == 0x1680
    ||| 0x2000 <= u <= 0x200a
    ||| u == 0x2028
    ||| u == 0x2029
    ||| u == 0x202f
    ||| u == 0x205f
    ||| u == 0x3000
}

/// `s` without its leading white space.
pub open spec fn trimmed_start(s: Seq<char>) -> Seq<char>
    decreases s.len(),
{
    if s.len() > 0 && is_white_space(s[0]) {
        trimmed_start(s.drop_first())
    } else {
        s
    }
}

/// `s` without its trailing white space.
pub open spec fn trimmed_end(s: Seq<char>) -> Seq<char>
    decreases s.len(),
{
    if s.len() > 0 && is_white_space(s.last()) {
        trimmed_end(s.drop_last())
    } else {
        s
    }
}

/// `s` without its leading and trailing white space.
pub open spec fn trimmed(s: Seq<char>) -> Seq<char> {
    trimmed_end(trimmed_start(s))
}

/// Whether `c` is white space.
pub fn is_whitespace(c: char) -> (r: bool)
    ensures
        r == is_white_space(c),
{
    let u = c as u32;
    (0x9 <= u && u <= 0xd) || u == 0x20 || u == 0x85 || u == 0xa0 || u == 0x1680 || (0x2000 <= u
        && u <= 0x200a) || u == 0x2028 || u == 0x2029 || u == 0x202f || u == 0x205f || u == 0x3000
}

/// A copy of `s` without its leading and trailing white space.
pub fn trim(s: &str) -> (r: String)
    ensures
        r@ == trimmed(s@),
{
    let chars = chars_of(s);
    let n = chars.len();
    let mut i: usize = 0;
    assert(chars@.subrange(0, n as int) =~= chars@);
    while i < n && is_whitespace(chars[i])
        invariant
            n == chars@.len(),
            i <= n,
            trimmed_start(chars@) == trimmed_start(chars@.subrange(i as int, n as int)),
        decreases n - i,
    {
        assert(chars@.subrange(i as int, n as int).drop_first() =~= chars@.subrange(
            i + 1,
            n as int,
        ));
        i = i + 1;
    }
    let ghost rest = chars@.subrange(i as int, n as int);
    assert(trimmed_start(rest) == rest);
    let mut j: usize = n;
    while j > i && is_whitespace(chars[j - 1])
        invariant
            n == chars@.len(),
            i <= j <= n,
            rest == chars@.subrange(i as int, n as int),
            trimmed_end(rest) == trimmed_end(chars@.subrange(i as int, j as int)),
        decreases j,
    {
        assert(chars@.subrange(i as int, j as int).drop_last() =~= chars@.subrange(
            i as int,
            j - 1,
        ));
        j = j - 1;
    }
    assert(trimmed_end(chars@.subrange(i as int, j as int)) == chars@.subrange(i as int, j as int));
    let part = s.substring_char(i, j);
    String::from_str(part)
}

} // verus!
