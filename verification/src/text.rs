//! Text of the protocol: splitting a line into tokens, and reading and
//! writing decimal numbers.
//!
//! A line is taken as the sequence of its characters. Its tokens are the
//! runs of characters between white space, which is what Unicode calls so.
//! White space separates tokens and is no part of any: a line may begin and
//! end with it, and any amount of it may stand between two tokens.

use vstd::prelude::*;
use vstd::string::*;

verus! {

/// Whether `c` is white space: a character with the Unicode property
/// `White_Space`.
pub open spec fn is_space(c: char) -> bool {
    let n = c as u32;
    ||| 0x09 <= n <= 0x0D
    ||| n == 0x20
    ||| n == 0x85
    ||| n == 0xA0
    ||| n == 0x1680
    ||| 0x2000 <= n <= 0x200A
    ||| n == 0x2028
    ||| n == 0x2029
    ||| n == 0x202F
    ||| n == 0x205F
    ||| n == 0x3000
}

/// The number of characters at the start of `s` that are no white space:
/// the length of the word that `s` begins with.
pub open spec fn word_len(s: Seq<char>) -> nat
    decreases s.len(),
{
    if s.len() == 0 || is_space(s[0]) {
        0
    } else {
        1 + word_len(s.drop_first())
    }
}

/// The tokens of `s`: the longest runs of characters that are no white
/// space, in order. A line of white space alone has no token.
pub open spec fn tokens(s: Seq<char>) -> Seq<Seq<char>>
    decreases s.len(),
{
    if s.len() == 0 {
        Seq::empty()
    } else if is_space(s[0]) {
        tokens(s.drop_first())
    } else {
        proof {
            lemma_word_len(s);
        }
        seq![s.subrange(0, word_len(s) as int)] + tokens(
            s.subrange(word_len(s) as int, s.len() as int),
        )
    }
}

/// Whether `c` is one of the digits `0` to `9`.
pub open spec fn is_digit(c: char) -> bool {
    0x30 <= c as u32 <= 0x39
}

/// Whether `s` holds digits only.
pub open spec fn all_digits(s: Seq<char>) -> bool {
    forall|i: int| 0 <= i < s.len() ==> is_digit(#[trigger] s[i])
}

/// The number that the digits of `s` write in base ten.
pub open spec fn digits_value(s: Seq<char>) -> nat
    decreases s.len(),
{
    if s.len() == 0 {
        0
    } else {
        digits_value(s.drop_last()) * 10 + (s.last() as u32 - 0x30) as nat
    }
}

/// The number that `s` writes: one or more digits, with an optional `+` in
/// front. `None` where `s` has another form.
pub open spec fn number(s: Seq<char>) -> Option<nat> {
    let body = if s.len() > 0 && s[0] == '+' {
        s.drop_first()
    } else {
        s
    };
    if body.len() > 0 && all_digits(body) {
        Some(digits_value(body))
    } else {
        None
    }
}

/// The number `n`, unless it is `None` or above `max`.
pub open spec fn bounded(n: Option<nat>, max: nat) -> Option<u128> {
    match n {
        Some(v) => if v <= max && v <= u128::MAX {
            Some(v as u128)
        } else {
            None
        },
        None => None,
    }
}

/// The digit that writes `d`, for `d` below ten.
pub open spec fn digit_char(d: nat) -> char {
    (0x30 + d) as char
}

/// The digits that write `n` in base ten, without zeros in front.
pub open spec fn decimal(n: nat) -> Seq<char>
    decreases n,
{
    if n < 10 {
        seq![digit_char(n)]
    } else {
        decimal(n / 10).push(digit_char(n % 10))
    }
}

/// The word that `s` begins with lies within `s` and holds no white space;
/// white space or the end of `s` follows it; and it is not empty where `s`
/// begins with a character that is no white space.
pub proof fn lemma_word_len(s: Seq<char>)
    ensures
        word_len(s) <= s.len(),
        forall|j: int| 0 <= j < word_len(s) ==> !is_space(#[trigger] s[j]),
        word_len(s) < s.len() ==> is_space(s[word_len(s) as int]),
        s.len() > 0 && !is_space(s[0]) ==> word_len(s) >= 1,
    decreases s.len(),
{
    if s.len() > 0 && !is_space(s[0]) {
        let rest = s.drop_first();
        let m = word_len(s) as int;
        lemma_word_len(rest);
        assert forall|j: int| 0 <= j < m implies !is_space(#[trigger] s[j]) by {
            if j > 0 {
                assert(s[j] == rest[j - 1]);
            }
        }
        if m < s.len() {
            assert(s[m] == rest[m - 1]);
        }
    }
}

/// A run of `m` characters that are no white space, with white space or the
/// end of `s` behind it, is the word that `s` begins with.
pub proof fn lemma_word_found(s: Seq<char>, m: int)
    requires
        0 <= m <= s.len(),
        forall|j: int| 0 <= j < m ==> !is_space(#[trigger] s[j]),
        m < s.len() ==> is_space(s[m]),
    ensures
        word_len(s) == m,
    decreases s.len(),
{
    if m > 0 {
        let rest = s.drop_first();
        assert forall|j: int| 0 <= j < m - 1 implies !is_space(#[trigger] rest[j]) by {
            assert(rest[j] == s[j + 1]);
        }
        lemma_word_found(rest, m - 1);
    }
}

/// In a sequence of digits, the first digits write no more than all of
/// them.
pub proof fn lemma_digits_grow(s: Seq<char>, j: int)
    requires
        all_digits(s),
        0 <= j <= s.len(),
    ensures
        digits_value(s.subrange(0, j)) <= digits_value(s),
    decreases s.len() - j,
{
    if j < s.len() {
        let longer = s.subrange(0, j + 1);
        assert(longer.drop_last() =~= s.subrange(0, j));
        assert(longer.last() == s[j]);
        assert(is_digit(s[j]));
        lemma_digits_grow(s, j + 1);
    } else {
        assert(s.subrange(0, j) =~= s);
    }
}

/// What is written in decimal reads back as the number that was written.
pub proof fn lemma_decimal_reads_back(n: nat)
    ensures
        decimal(n).len() > 0,
        all_digits(decimal(n)),
        digits_value(decimal(n)) == n,
        number(decimal(n)) == Some(n),
    decreases n,
{
    let d = decimal(n);
    if n < 10 {
        assert(d.drop_last() =~= Seq::<char>::empty());
        assert(digits_value(d.drop_last()) == 0);
        assert(d.last() == digit_char(n));
        assert(digit_char(n) as u32 == 0x30 + n);
    } else {
        lemma_decimal_reads_back(n / 10);
        let front = decimal(n / 10);
        assert(d.drop_last() =~= front);
        assert(d.last() == digit_char(n % 10));
        assert(digit_char(n % 10) as u32 == 0x30 + n % 10);
        assert(digits_value(d) == digits_value(front) * 10 + n % 10);
        assert forall|i: int| 0 <= i < d.len() implies is_digit(#[trigger] d[i]) by {
            if i < front.len() {
                assert(d[i] == front[i]);
            }
        }
        assert(d[0] == front[0]);
    }
    assert(is_digit(d[0]));
    assert(d[0] != '+');
}

/// Whether `c` is white space.
pub fn is_whitespace(c: char) -> (b: bool)
    ensures
        b == is_space(c),
{
    let n: u32 = c as u32;
    (0x09 <= n && n <= 0x0D) || n == 0x20 || n == 0x85 || n == 0xA0 || n == 0x1680 || (0x2000 <= n
        && n <= 0x200A) || n == 0x2028 || n == 0x2029 || n == 0x202F || n == 0x205F || n == 0x3000
}

/// The characters of `input`, one by one.
pub fn chars_of(input: &str) -> (v: Vec<char>)
    ensures
        v@ == input@,
{
    let mut v: Vec<char> = Vec::new();
    for c in it: input.chars()
        invariant
            v@ == it.seq().subrange(0, it.index() as int),
            it.seq() == input@,
    {
        v.push(c);
        assert(v@ =~= it.seq().subrange(0, it.index() + 1));
    }
    assert(input@.subrange(0, input@.len() as int) =~= input@);
    v
}

/// The bounds of the tokens of `chars`.
pub fn token_bounds(chars: &Vec<char>) -> (r: Vec<(usize, usize)>)
    ensures
        r.len() == tokens(chars@).len(),
        forall|k: int|
            0 <= k < r.len() ==> {
                &&& (#[trigger] r[k]).0 < r[k].1 <= chars.len()
                &&& chars@.subrange(r[k].0 as int, r[k].1 as int) == tokens(chars@)[k]
            },
{
    let ghost s = chars@;
    let n = chars.len();
    let mut r: Vec<(usize, usize)> = Vec::new();
    let ghost mut done: Seq<Seq<char>> = Seq::empty();
    let mut i: usize = 0;
    assert(s.subrange(0, n as int) =~= s);
    assert(done + tokens(s) =~= tokens(s));
    while i < n
        invariant
            i <= n,
            n == chars.len(),
            s == chars@,
            done + tokens(s.subrange(i as int, n as int)) == tokens(s),
            r.len() == done.len(),
            forall|k: int|
                0 <= k < r.len() ==> {
                    &&& (#[trigger] r[k]).0 < r[k].1 <= n
                    &&& s.subrange(r[k].0 as int, r[k].1 as int) == done[k]
                },
        decreases n - i,
    {
        let ghost rest = s.subrange(i as int, n as int);
        if is_whitespace(chars[i]) {
            assert(rest.drop_first() =~= s.subrange(i + 1, n as int));
            i += 1;
        } else {
            let start = i;
            i += 1;
            while i < n && !is_whitespace(chars[i])
                invariant
                    start < i <= n,
                    n == chars.len(),
                    s == chars@,
                    forall|j: int| start <= j < i ==> !is_space(#[trigger] s[j]),
                decreases n - i,
            {
                i += 1;
            }
            proof {
                assert forall|j: int| 0 <= j < i - start implies !is_space(
                    #[trigger] rest[j],
                ) by {
                    assert(rest[j] == s[start + j]);
                }
                if i < n {
                    assert(rest[i - start] == s[i as int]);
                }
                lemma_word_found(rest, i - start);
                let word = s.subrange(start as int, i as int);
                assert(rest.subrange(0, i - start) =~= word);
                assert(rest.subrange(i - start, rest.len() as int) =~= s.subrange(
                    i as int,
                    n as int,
                ));
                assert(done.push(word) + tokens(s.subrange(i as int, n as int)) =~= done
                    + tokens(rest));
                done = done.push(word);
            }
            r.push((start, i));
        }
    }
    proof {
        assert(tokens(s.subrange(n as int, n as int)) =~= Seq::<Seq<char>>::empty());
        assert(done + Seq::<Seq<char>>::empty() =~= done);
    }
    r
}

/// Reads the number that the characters of `chars` between `a` and `b`
/// write, if they write one that is no more than `max`.
pub fn parse_number(chars: &Vec<char>, a: usize, b: usize, max: u128) -> (r: Option<u128>)
    requires
        a <= b <= chars.len(),
    ensures
        r == bounded(number(chars@.subrange(a as int, b as int)), max as nat),
{
    let ghost s = chars@.subrange(a as int, b as int);
    let mut i: usize = a;
    if a < b && chars[a] == '+' {
        i = a + 1;
    }
    let ghost body = chars@.subrange(i as int, b as int);
    proof {
        if i > a {
            assert(s[0] == '+');
            assert(s.drop_first() =~= body);
        } else {
            if s.len() > 0 {
                assert(s[0] == chars@[a as int]);
            }
            assert(s =~= body);
        }
    }
    if i == b {
        return None;
    }
    let first = i;
    let mut acc: u128 = 0;
    let ghost target = number(s);
    assert(body.subrange(0, 0) =~= Seq::<char>::empty());
    while i < b
        invariant
            first <= i <= b <= chars.len(),
            first < b,
            a <= first,
            body == chars@.subrange(first as int, b as int),
            target == number(chars@.subrange(a as int, b as int)),
            target == (if all_digits(body) {
                Some(digits_value(body))
            } else {
                None
            }),
            all_digits(body.subrange(0, i - first)),
            acc == digits_value(body.subrange(0, i - first)),
            acc <= max,
        decreases b - i,
    {
        let code: u32 = chars[i] as u32;
        if code < 0x30 || code > 0x39 {
            assert(!is_digit(body[i - first]));
            return None;
        }
        let d: u128 = (code - 0x30) as u128;
        proof {
            let longer = body.subrange(0, i - first + 1);
            assert(longer.drop_last() =~= body.subrange(0, i - first));
            assert(longer.last() == body[i - first]);
            assert(digits_value(longer) == acc * 10 + d);
            assert forall|j: int| 0 <= j < longer.len() implies is_digit(#[trigger] longer[j]) by {
                if j < i - first {
                    assert(longer[j] == body.subrange(0, i - first)[j]);
                }
            }
            if all_digits(body) {
                lemma_digits_grow(body, i - first + 1);
            }
        }
        if d > max || acc > (max - d) / 10 {
            return None;
        }
        acc = acc * 10 + d;
        i += 1;
    }
    assert(body.subrange(0, b - first) =~= body);
    Some(acc)
}

/// Whether the characters of `chars` between `a` and `b` spell `word`.
pub fn spells(chars: &Vec<char>, a: usize, b: usize, word: &str) -> (r: bool)
    requires
        a <= b <= chars.len(),
    ensures
        r == (chars@.subrange(a as int, b as int) == word@),
{
    let letters = chars_of(word);
    if letters.len() != b - a {
        return false;
    }
    let n = letters.len();
    let mut i: usize = 0;
    while i < n
        invariant
            i <= n,
            n == letters.len(),
            n == b - a,
            a <= b <= chars.len(),
            letters@ == word@,
            forall|j: int| 0 <= j < i ==> chars@[a + j] == #[trigger] letters@[j],
        decreases n - i,
    {
        if chars[a + i] != letters[i] {
            assert(chars@.subrange(a as int, b as int)[i as int] != letters@[i as int]);
            return false;
        }
        i += 1;
    }
    assert(chars@.subrange(a as int, b as int) =~= letters@);
    true
}

/// The digit that writes `d`.
fn digit_str(d: u32) -> (s: &'static str)
    requires
        d < 10,
    ensures
        s@ == seq![digit_char(d as nat)],
{
    proof {
        reveal_strlit("0");
        reveal_strlit("1");
        reveal_strlit("2");
        reveal_strlit("3");
        reveal_strlit("4");
        reveal_strlit("5");
        reveal_strlit("6");
        reveal_strlit("7");
        reveal_strlit("8");
        reveal_strlit("9");
    }
    let s = if d == 0 {
        "0"
    } else if d == 1 {
        "1"
    } else if d == 2 {
        "2"
    } else if d == 3 {
        "3"
    } else if d == 4 {
        "4"
    } else if d == 5 {
        "5"
    } else if d == 6 {
        "6"
    } else if d == 7 {
        "7"
    } else if d == 8 {
        "8"
    } else {
        "9"
    };
    assert(s@ =~= seq![digit_char(d as nat)]);
    s
}

/// Appends the decimal digits of `n` to `out`.
pub fn push_decimal(out: &mut String, n: u32)
    ensures
        final(out)@ == old(out)@ + decimal(n as nat),
    decreases n,
{
    if n >= 10 {
        push_decimal(out, n / 10);
    }
    out.append(digit_str(n % 10));
    proof {
        if n >= 10 {
            assert(old(out)@ + decimal(n as nat / 10) + seq![digit_char(n as nat % 10)] =~= old(
                out,
            )@ + decimal(n as nat));
        }
    }
}

} // verus!
