//! What a client writes and reads: the request lines that it sends, the
//! address of a node, and the text of a reply. What is written here is what
//! a node reads: a line for a key and a value that hold no white space
//! parses back to the command that was meant.

use crate::commands::{parsed, CommandView};
use crate::text::{
    bounded, decimal, is_digit, is_space, lemma_decimal_reads_back, lemma_word_found, number,
    push_decimal, tokens,
};
use vstd::prelude::*;
use vstd::slice::slice_subrange;
use vstd::string::*;
use vstd::utf8::{encode_utf8, valid_utf8};

verus! {

/// The line that asks a node to store `value` under `key`:
/// `set <key> <flags> <exptime> <value>`, the numbers in decimal.
pub open spec fn set_line_text(key: Seq<char>, flags: u32, exp_time: u32, value: Seq<char>) -> Seq<
    char,
> {
    "set "@ + key + " "@ + decimal(flags as nat) + " "@ + decimal(exp_time as nat) + " "@ + value
}

/// The line that asks a node for the value of `key`: `get <key>`.
pub open spec fn get_line_text(key: Seq<char>) -> Seq<char> {
    "get "@ + key
}

/// The address of a node: `<host>:<port>`, the port in decimal.
pub open spec fn address_text(host: Seq<char>, port: u16) -> Seq<char> {
    host + ":"@ + decimal(port as nat)
}

/// Whether `s` is a word: it is not empty and holds no white space.
pub open spec fn is_word(s: Seq<char>) -> bool {
    s.len() > 0 && forall|i: int| 0 <= i < s.len() ==> !is_space(#[trigger] s[i])
}

/// A word, then a space, then the rest: the word is the first of the
/// tokens, and the others are those of the rest.
proof fn lemma_tokens_head(word: Seq<char>, rest: Seq<char>)
    requires
        is_word(word),
    ensures
        tokens(word + seq![' '] + rest) == seq![word] + tokens(rest),
{
    let line = word + seq![' '] + rest;
    let m = word.len() as int;
    assert forall|j: int| 0 <= j < m implies !is_space(#[trigger] line[j]) by {
        assert(line[j] == word[j]);
    }
    assert(line[m] == ' ');
    assert(line[0] == word[0]);
    lemma_word_found(line, m);
    assert(line.subrange(0, m) =~= word);
    let tail = line.subrange(m, line.len() as int);
    assert(tail[0] == ' ');
    assert(tail.drop_first() =~= rest);
    assert(tokens(tail) == tokens(rest));
    assert(tokens(line) == seq![word] + tokens(tail));
}

/// A word is the only token of itself.
proof fn lemma_tokens_single(word: Seq<char>)
    requires
        is_word(word),
    ensures
        tokens(word) == seq![word],
{
    let m = word.len() as int;
    lemma_word_found(word, m);
    assert(word.subrange(0, m) =~= word);
    let end = word.subrange(m, m);
    assert(tokens(end) == Seq::<Seq<char>>::empty());
    assert(tokens(word) == seq![word] + tokens(end));
    assert(seq![word] + tokens(end) =~= seq![word]);
}

/// Decimal digits make a word.
proof fn lemma_decimal_word(n: nat)
    ensures
        is_word(decimal(n)),
{
    lemma_decimal_reads_back(n);
    let d = decimal(n);
    assert forall|i: int| 0 <= i < d.len() implies !is_space(#[trigger] d[i]) by {
        assert(is_digit(d[i]));
    }
}

/// What a client writes for a `get`, a node reads as a `get` of the same
/// key, for a key that is a word.
pub proof fn lemma_get_line_parses(key: Seq<char>)
    requires
        is_word(key),
    ensures
        parsed(get_line_text(key)) == CommandView::Get(key),
{
    reveal_strlit("get ");
    reveal_strlit("get");
    reveal_strlit("set");
    let line = get_line_text(key);
    let verb = seq!['g', 'e', 't'];
    assert("get "@ =~= verb + seq![' ']);
    assert(line =~= verb + seq![' '] + key);
    lemma_tokens_head(verb, key);
    lemma_tokens_single(key);
    let t = tokens(line);
    assert(t =~= seq![verb, key]);
    assert(t[0] =~= "get"@);
    assert(t[0] != "set"@) by {
        assert(t[0][0] == 'g');
        assert("set"@[0] == 's');
    }
}

/// What a client writes for a `set`, a node reads as a `set` of the same
/// key, flags, expiry time and value, for a key and a value that are words.
pub proof fn lemma_set_line_parses(key: Seq<char>, flags: u32, exp_time: u32, value: Seq<char>)
    requires
        is_word(key),
        is_word(value),
    ensures
        parsed(set_line_text(key, flags, exp_time, value)) == CommandView::SetValue(
            key,
            flags as usize,
            exp_time as u128,
            encode_utf8(value),
        ),
{
    reveal_strlit("set ");
    reveal_strlit("set");
    reveal_strlit(" ");
    let line = set_line_text(key, flags, exp_time, value);
    let verb = seq!['s', 'e', 't'];
    let gap = seq![' '];
    let f = decimal(flags as nat);
    let e = decimal(exp_time as nat);
    assert("set "@ =~= verb + gap);
    assert(" "@ =~= gap);
    let after_e = e + gap + value;
    let after_f = f + gap + after_e;
    let after_key = key + gap + after_f;
    assert(line =~= verb + gap + after_key);
    lemma_decimal_word(flags as nat);
    lemma_decimal_word(exp_time as nat);
    lemma_decimal_reads_back(flags as nat);
    lemma_decimal_reads_back(exp_time as nat);
    lemma_tokens_head(verb, after_key);
    lemma_tokens_head(key, after_f);
    lemma_tokens_head(f, after_e);
    lemma_tokens_head(e, value);
    lemma_tokens_single(value);
    let t = tokens(line);
    assert(t =~= seq![verb, key, f, e, value]);
    assert(t[0] =~= "set"@);
    assert(bounded(number(t[2]), usize::MAX as nat) == Some(flags as u128));
    assert(bounded(number(t[3]), u128::MAX as nat) == Some(exp_time as u128));
}

/// Writes the line of a `set` request.
pub fn set_line(key: &str, flags: u32, exp_time: u32, value: &str) -> (line: String)
    ensures
        line@ == set_line_text(key@, flags, exp_time, value@),
{
    let mut line = String::from_str("set ");
    line.append(key);
    line.append(" ");
    push_decimal(&mut line, flags);
    line.append(" ");
    push_decimal(&mut line, exp_time);
    line.append(" ");
    line.append(value);
    line
}

/// Writes the line of a `get` request.
pub fn get_line(key: &str) -> (line: String)
    ensures
        line@ == get_line_text(key@),
{
    let mut line = String::from_str("get ");
    line.append(key);
    line
}

/// Writes the address of the node at `host` and `port`.
pub fn address_of(host: &str, port: u16) -> (address: String)
    ensures
        address@ == address_text(host@, port),
{
    let mut address = String::from_str(host);
    address.append(":");
    push_decimal(&mut address, port as u32);
    address
}

/// `String::from_utf8_lossy`: the text that `bytes` encode. Where the bytes
/// are valid UTF-8 the text is theirs, unchanged. Nothing is claimed of the
/// text that other bytes give.
#[verifier::external_body]
fn text_of(bytes: &[u8]) -> (text: String)
    ensures
        valid_utf8(bytes@) ==> encode_utf8(text@) == bytes@,
{
    String::from_utf8_lossy(bytes).into_owned()
}

/// The text of a reply that fills the first `size` bytes of `buf`.
pub fn reply_text(buf: &[u8], size: usize) -> (text: String)
    requires
        size <= buf@.len(),
    ensures
        valid_utf8(buf@.subrange(0, size as int)) ==> encode_utf8(text@) == buf@.subrange(
            0,
            size as int,
        ),
{
    text_of(slice_subrange(buf, 0, size))
}

} // verus!
