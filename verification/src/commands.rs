//! The command protocol: a request line is parsed into a command, and the
//! command is executed against the store of a node.
//!
//! Times are counted in milliseconds since the Unix epoch. An entry that was
//! set with an expiry time of 0 never expires; another one is gone once the
//! clock is past the time at which it was set plus its expiry time. Expiry
//! is lazy: an entry that has expired stays in the store until a `get` finds
//! it, which takes it out, or until eviction removes it.

use crate::cache::{
    distinct_keys, has_key, inserted, key_index, lemma_inserted, lemma_touched, removed, touched,
    LruCache,
};
use crate::clock::unix_millis;
use crate::text::{bounded, chars_of, number, parse_number, spells, token_bounds, tokens};
use vstd::prelude::*;
use vstd::string::*;
use vstd::utf8::{decode_utf8, encode_utf8, encode_utf8_decode_utf8, valid_utf8};

verus! {

/// What the store keeps for a key: the value, and the time at which it
/// expires, in milliseconds since the Unix epoch; 0 for a value that never
/// expires.
#[derive(Debug, PartialEq)]
pub struct Entry {
    pub expires_at: u128,
    pub data: Vec<u8>,
}

impl Clone for Entry {
    fn clone(&self) -> (copy: Self)
        ensures
            copy.expires_at == self.expires_at,
            copy.data@ == self.data@,
    {
        Entry { expires_at: self.expires_at, data: self.data.clone() }
    }
}

/// A request, parsed. The parser gives `SetValue`, `Get`, `Delete`,
/// `Version` and `Invalid`; the other commands have a name and no meaning
/// yet.
#[derive(Debug, PartialEq)]
pub enum Command {
    /// `set <key> <flags> <exptime> <data>`: key, flags, expiry time in
    /// milliseconds, value.
    SetValue(String, usize, u128, Vec<u8>),
    Add(String, Vec<u8>),
    Replace(String, Vec<u8>),
    Append(String, Vec<u8>),
    Prepend(String, Vec<u8>),
    Get(String),
    Gets(String),
    Delete(String),
    Incr(String),
    Decr(String),
    Cas(String, Vec<u8>),
    Stats,
    Version,
    Flushall,
    Invalid,
}

/// A command as plain values: keys as sequences of characters, data as
/// sequences of bytes.
pub enum CommandView {
    SetValue(Seq<char>, usize, u128, Seq<u8>),
    Add(Seq<char>, Seq<u8>),
    Replace(Seq<char>, Seq<u8>),
    Append(Seq<char>, Seq<u8>),
    Prepend(Seq<char>, Seq<u8>),
    Get(Seq<char>),
    Gets(Seq<char>),
    Delete(Seq<char>),
    Incr(Seq<char>),
    Decr(Seq<char>),
    Cas(Seq<char>, Seq<u8>),
    Stats,
    Version,
    Flushall,
    Invalid,
}

impl View for Command {
    type V = CommandView;

    open spec fn view(&self) -> CommandView {
        match self {
            Command::SetValue(key, flags, exptime, data) => CommandView::SetValue(
                key@,
                *flags,
                *exptime,
                data@,
            ),
            Command::Add(key, data) => CommandView::Add(key@, data@),
            Command::Replace(key, data) => CommandView::Replace(key@, data@),
            Command::Append(key, data) => CommandView::Append(key@, data@),
            Command::Prepend(key, data) => CommandView::Prepend(key@, data@),
            Command::Get(key) => CommandView::Get(key@),
            Command::Gets(key) => CommandView::Gets(key@),
            Command::Delete(key) => CommandView::Delete(key@),
            Command::Incr(key) => CommandView::Incr(key@),
            Command::Decr(key) => CommandView::Decr(key@),
            Command::Cas(key, data) => CommandView::Cas(key@, data@),
            Command::Stats => CommandView::Stats,
            Command::Version => CommandView::Version,
            Command::Flushall => CommandView::Flushall,
            Command::Invalid => CommandView::Invalid,
        }
    }
}

/// Why a request could not be answered.
#[derive(Debug, PartialEq, Eq)]
pub enum CommandError {
    /// The clock of the machine is set before the Unix epoch.
    Clock,
    /// The request is no UTF-8 text.
    NotText,
}

/// `core::str::Utf8Error`, the error of `core::str::from_utf8`. Nothing of
/// its value is visible here.
#[verifier::external_type_specification]
#[verifier::external_body]
pub struct ExUtf8Error(core::str::Utf8Error);

/// `core::str::from_utf8`: the text that `bytes` are, where they are valid
/// UTF-8, and an error where they are not.
#[verifier::external_body]
fn text_in(bytes: &[u8]) -> (r: Result<&str, core::str::Utf8Error>)
    ensures
        r is Ok <==> valid_utf8(bytes@),
        r matches Ok(line) ==> line.spec_bytes() == bytes@,
{
    core::str::from_utf8(bytes)
}

/// The command that the line `input` asks for.
///
/// The line is taken as its tokens, which white space separates; the first
/// token is the verb. A line without a token, a verb that is not known, a
/// wrong number of tokens for the verb, and flags or an expiry time that are
/// no numbers or too large all give `Invalid`.
pub open spec fn parsed(input: Seq<char>) -> CommandView {
    let t = tokens(input);
    if t.len() == 0 {
        CommandView::Invalid
    } else if t[0] == "set"@ && t.len() == 5 {
        match (
            bounded(number(t[2]), usize::MAX as nat),
            bounded(number(t[3]), u128::MAX as nat),
        ) {
            (Some(flags), Some(exptime)) => CommandView::SetValue(
                t[1],
                flags as usize,
                exptime,
                encode_utf8(t[4]),
            ),
            _ => CommandView::Invalid,
        }
    } else if t[0] == "get"@ && t.len() == 2 {
        CommandView::Get(t[1])
    } else if t[0] == "delete"@ && t.len() == 2 {
        CommandView::Delete(t[1])
    } else if t[0] == "version"@ && t.len() == 1 {
        CommandView::Version
    } else {
        CommandView::Invalid
    }
}

/// The bytes of a reply text.
pub open spec fn text(s: &str) -> Seq<u8> {
    s.spec_bytes()
}

/// The time at which a value expires that is set at `now` with the expiry
/// time `exptime`: 0, which stands for never, where `exptime` is 0; else
/// their sum, or the largest time where the sum is beyond it.
pub open spec fn deadline(now: u128, exptime: u128) -> u128 {
    if exptime == 0 {
        0
    } else if now + exptime > u128::MAX {
        u128::MAX
    } else {
        (now + exptime) as u128
    }
}

/// Whether a value that expires at `expires_at` is gone at `now`.
pub open spec fn expired(expires_at: u128, now: u128) -> bool {
    expires_at != 0 && expires_at < now
}

/// The entries of the store after `cmd` was executed at the time `now`.
pub open spec fn store_after(
    cmd: Command,
    s: Seq<(Seq<char>, Entry)>,
    cap: nat,
    now: u128,
) -> Seq<(Seq<char>, Entry)> {
    match cmd {
        Command::SetValue(key, _, exptime, data) => inserted(
            s,
            cap,
            key@,
            Entry { expires_at: deadline(now, exptime), data },
        ),
        Command::Get(key) => if has_key(s, key@) && expired(
            s[key_index(s, key@)].1.expires_at,
            now,
        ) {
            removed(s, key@)
        } else {
            touched(s, key@)
        },
        Command::Delete(key) => removed(s, key@),
        _ => s,
    }
}

/// The reply to `cmd`, executed at the time `now` on a store with the
/// entries `s`, by a node of the version `version`.
pub open spec fn reply(
    cmd: Command,
    s: Seq<(Seq<char>, Entry)>,
    now: u128,
    version: Seq<u8>,
) -> Seq<u8> {
    match cmd {
        Command::SetValue(_, _, _, _) => text("STORED"),
        Command::Get(key) => if has_key(s, key@) && !expired(
            s[key_index(s, key@)].1.expires_at,
            now,
        ) {
            s[key_index(s, key@)].1.data@
        } else {
            text("NOT FOUND")
        },
        Command::Delete(key) => if has_key(s, key@) {
            text("DELETED")
        } else {
            text("NOT FOUND")
        },
        Command::Version => version,
        _ => text("NOT IMPLEMENTED"),
    }
}

/// Whether the execution of `cmd` on a store with the entries `s` asks the
/// clock: a `set` with an expiry time does, and a `get` that finds an entry
/// which can expire.
pub open spec fn reads_clock(cmd: Command, s: Seq<(Seq<char>, Entry)>) -> bool {
    match cmd {
        Command::SetValue(_, _, exptime, _) => exptime != 0,
        Command::Get(key) => has_key(s, key@) && s[key_index(s, key@)].1.expires_at != 0,
        _ => false,
    }
}

/// The entries of the store after `cmd` failed for want of the time: a `get`
/// has found its entry, and nothing else has happened.
pub open spec fn store_untimed(cmd: Command, s: Seq<(Seq<char>, Entry)>) -> Seq<
    (Seq<char>, Entry),
> {
    match cmd {
        Command::Get(key) => touched(s, key@),
        _ => s,
    }
}

/// The store `after` and the reply `out` are what the execution of `cmd` at
/// the time `now` gives.
pub open spec fn outcome_at(
    cmd: Command,
    before: Seq<(Seq<char>, Entry)>,
    cap: nat,
    version: Seq<u8>,
    now: u128,
    after: Seq<(Seq<char>, Entry)>,
    out: Seq<u8>,
) -> bool {
    after == store_after(cmd, before, cap, now) && out == reply(cmd, before, now, version)
}

/// A value with the expiry time 0 never expires; another one has expired
/// when more than its expiry time has passed since it was set.
pub proof fn lemma_expiry(set_at: u128, exptime: u128, get_at: u128)
    ensures
        exptime == 0 ==> !expired(deadline(set_at, exptime), get_at),
        exptime > 0 ==> (expired(deadline(set_at, exptime), get_at) <==> set_at + exptime
            < get_at),
{
}

/// In a store that holds something, a `get` after a `set` of the same key
/// replies with the value that was set, byte for byte, unless the value has
/// expired by then: the reply is `NOT FOUND` in that case.
pub proof fn lemma_set_then_get(
    s: Seq<(Seq<char>, Entry)>,
    cap: nat,
    key: String,
    flags: usize,
    exptime: u128,
    data: Vec<u8>,
    set_at: u128,
    get_at: u128,
    version: Seq<u8>,
)
    requires
        distinct_keys(s),
        cap > 0,
    ensures
        reply(
            Command::Get(key),
            store_after(Command::SetValue(key, flags, exptime, data), s, cap, set_at),
            get_at,
            version,
        ) == (if expired(deadline(set_at, exptime), get_at) {
            text("NOT FOUND")
        } else {
            data@
        }),
{
    lemma_inserted(s, cap, key@, Entry { expires_at: deadline(set_at, exptime), data });
}

/// The store `after` and the result `r` are what the execution of `cmd`
/// gives at the time that the clock shows, whatever that time is. Where the
/// command asks the clock and the clock cannot be read, the command fails.
/// Where it does not ask the clock it succeeds, and the time plays no part.
pub open spec fn handled(
    cmd: Command,
    before: Seq<(Seq<char>, Entry)>,
    cap: nat,
    version: Seq<u8>,
    after: Seq<(Seq<char>, Entry)>,
    r: Result<Vec<u8>, CommandError>,
) -> bool {
    &&& r matches Ok(out) ==> exists|now: u128| #[trigger]
        outcome_at(cmd, before, cap, version, now, after, out@)
    &&& r matches Err(e) ==> e == CommandError::Clock && reads_clock(cmd, before) && after
        == store_untimed(cmd, before)
    &&& !reads_clock(cmd, before) ==> r is Ok && outcome_at(
        cmd,
        before,
        cap,
        version,
        0,
        after,
        r->Ok_0@,
    )
}

/// Parses one request line.
pub fn parse_input(input: &str) -> (cmd: Command)
    ensures
        cmd@ == parsed(input@),
{
    let chars = chars_of(input);
    let bounds = token_bounds(&chars);
    let n = bounds.len();
    let ghost t = tokens(input@);
    if n == 0 {
        return Command::Invalid;
    }
    let verb = bounds[0];
    assert(chars@.subrange(verb.0 as int, verb.1 as int) == t[0]);
    if spells(&chars, verb.0, verb.1, "set") && n == 5 {
        let key = bounds[1];
        let flags = bounds[2];
        let exptime = bounds[3];
        let data = bounds[4];
        assert(chars@.subrange(key.0 as int, key.1 as int) == t[1]);
        assert(chars@.subrange(flags.0 as int, flags.1 as int) == t[2]);
        assert(chars@.subrange(exptime.0 as int, exptime.1 as int) == t[3]);
        assert(chars@.subrange(data.0 as int, data.1 as int) == t[4]);
        let flags_read = parse_number(&chars, flags.0, flags.1, usize::MAX as u128);
        let exptime_read = parse_number(&chars, exptime.0, exptime.1, u128::MAX);
        match (flags_read, exptime_read) {
            (Some(f), Some(e)) => Command::SetValue(
                String::from_str(input.substring_char(key.0, key.1)),
                f as usize,
                e,
                input.substring_char(data.0, data.1).as_bytes_vec(),
            ),
            _ => Command::Invalid,
        }
    } else if spells(&chars, verb.0, verb.1, "get") && n == 2 {
        let key = bounds[1];
        assert(chars@.subrange(key.0 as int, key.1 as int) == t[1]);
        Command::Get(String::from_str(input.substring_char(key.0, key.1)))
    } else if spells(&chars, verb.0, verb.1, "delete") && n == 2 {
        let key = bounds[1];
        assert(chars@.subrange(key.0 as int, key.1 as int) == t[1]);
        Command::Delete(String::from_str(input.substring_char(key.0, key.1)))
    } else if spells(&chars, verb.0, verb.1, "version") && n == 1 {
        Command::Version
    } else {
        Command::Invalid
    }
}

/// The time at which a value expires that is set at `now` with the expiry
/// time `exptime`.
pub fn expiry_time(now: u128, exptime: u128) -> (at: u128)
    ensures
        at == deadline(now, exptime),
{
    if exptime == 0 {
        0
    } else if exptime > u128::MAX - now {
        u128::MAX
    } else {
        now + exptime
    }
}

/// Answers a `get` that found `entry` under `key`: the value, unless it has
/// expired at `now`; then the entry leaves the store.
fn finish_get(map: &mut LruCache<String, Entry>, key: &String, entry: Entry, now: u128) -> (out:
    Vec<u8>)
    requires
        old(map).wf(),
        has_key(old(map)@, key@),
    ensures
        final(map).wf(),
        final(map).capacity() == old(map).capacity(),
        final(map)@ == (if expired(entry.expires_at, now) {
            removed(old(map)@, key@)
        } else {
            old(map)@
        }),
        out@ == (if expired(entry.expires_at, now) {
            text("NOT FOUND")
        } else {
            entry.data@
        }),
{
    if entry.expires_at != 0 && entry.expires_at < now {
        let _ = map.remove(key);
        "NOT FOUND".as_bytes_vec()
    } else {
        entry.data
    }
}

impl Command {
    /// Executes the command against `map` at the time `now`, and returns the
    /// reply. `version` is what a `version` request is answered with.
    pub fn handle_at(self, map: &mut LruCache<String, Entry>, now: u128, version: &str) -> (out:
        Vec<u8>)
        requires
            old(map).wf(),
        ensures
            final(map).wf(),
            final(map).capacity() == old(map).capacity(),
            final(map)@ == store_after(self, old(map)@, old(map).capacity(), now),
            out@ == reply(self, old(map)@, now, version.spec_bytes()),
    {
        let ghost s = map@;
        proof {
            map.lemma_count_is_population();
        }
        match self {
            Command::SetValue(key, _flags, exptime, data) => {
                let expires_at = expiry_time(now, exptime);
                map.insert(key, Entry { expires_at, data });
                "STORED".as_bytes_vec()
            },
            Command::Get(key) => {
                match map.get(&key) {
                    Some(entry) => {
                        proof {
                            lemma_touched(s, key@);
                        }
                        finish_get(map, &key, entry, now)
                    },
                    None => "NOT FOUND".as_bytes_vec(),
                }
            },
            Command::Delete(key) => {
                match map.remove(&key) {
                    Some(_) => "DELETED".as_bytes_vec(),
                    None => "NOT FOUND".as_bytes_vec(),
                }
            },
            Command::Version => version.as_bytes_vec(),
            _ => "NOT IMPLEMENTED".as_bytes_vec(),
        }
    }

    /// Executes the command against `map` at the time that the clock shows,
    /// and returns the reply. `version` is what a `version` request is
    /// answered with.
    ///
    /// The clock is asked only where the command needs the time. Where it
    /// cannot be read the command fails: a `set` has then stored nothing, and
    /// a `get` has done no more than find its entry.
    pub fn handle(self, map: &mut LruCache<String, Entry>, version: &str) -> (r: Result<
        Vec<u8>,
        CommandError,
    >)
        requires
            old(map).wf(),
        ensures
            final(map).wf(),
            final(map).capacity() == old(map).capacity(),
            handled(
                self,
                old(map)@,
                old(map).capacity(),
                version.spec_bytes(),
                final(map)@,
                r,
            ),
    {
        let ghost s = map@;
        let ghost cap = map.capacity();
        let ghost ver = version.spec_bytes();
        proof {
            map.lemma_count_is_population();
        }
        let ghost mut at: u128 = 0;
        let r = match self {
            Command::SetValue(key, flags, exptime, data) => {
                if exptime == 0 {
                    let out = Command::SetValue(key, flags, exptime, data).handle_at(
                        map,
                        0,
                        version,
                    );
                    assert(outcome_at(self, s, cap, ver, 0, map@, out@));
                    Ok(out)
                } else {
                    match unix_millis() {
                        Some(now) => {
                            let out = Command::SetValue(key, flags, exptime, data).handle_at(
                                map,
                                now,
                                version,
                            );
                            assert(outcome_at(self, s, cap, ver, now, map@, out@));
                            proof {
                                at = now;
                            }
                            Ok(out)
                        },
                        None => Err(CommandError::Clock),
                    }
                }
            },
            Command::Get(key) => {
                match map.get(&key) {
                    Some(entry) => {
                        proof {
                            lemma_touched(s, key@);
                        }
                        if entry.expires_at == 0 {
                            let out = finish_get(map, &key, entry, 0);
                            assert(outcome_at(self, s, cap, ver, 0, map@, out@));
                            Ok(out)
                        } else {
                            match unix_millis() {
                                Some(now) => {
                                    let out = finish_get(map, &key, entry, now);
                                    assert(outcome_at(self, s, cap, ver, now, map@, out@));
                                    proof {
                                        at = now;
                                    }
                                    Ok(out)
                                },
                                None => {
                                    assert(reads_clock(self, s));
                                    Err(CommandError::Clock)
                                },
                            }
                        }
                    },
                    None => {
                        let out = "NOT FOUND".as_bytes_vec();
                        assert(outcome_at(self, s, cap, ver, 0, map@, out@));
                        Ok(out)
                    },
                }
            },
            other => {
                let out = other.handle_at(map, 0, version);
                assert(outcome_at(self, s, cap, ver, 0, map@, out@));
                Ok(out)
            },
        };
        assert(r matches Ok(out) ==> outcome_at(self, s, cap, ver, at, map@, out@));
        r
    }
}

/// Answers one request: the bytes are read as text, the text is parsed, and
/// the command is executed against `map` at the time that the clock shows.
/// `version` is what a `version` request is answered with.
///
/// Bytes that are no UTF-8 text are refused, and the store stays as it is.
pub fn respond(map: &mut LruCache<String, Entry>, request: &[u8], version: &str) -> (r: Result<
    Vec<u8>,
    CommandError,
>)
    requires
        old(map).wf(),
    ensures
        final(map).wf(),
        final(map).capacity() == old(map).capacity(),
        !valid_utf8(request@) ==> r == Err::<Vec<u8>, CommandError>(CommandError::NotText)
            && final(map)@ == old(map)@,
        valid_utf8(request@) ==> exists|cmd: Command|
            #[trigger] cmd@ == parsed(decode_utf8(request@)) && handled(
                cmd,
                old(map)@,
                old(map).capacity(),
                version.spec_bytes(),
                final(map)@,
                r,
            ),
{
    match text_in(request) {
        Err(_) => Err(CommandError::NotText),
        Ok(line) => {
            proof {
                encode_utf8_decode_utf8(line@);
            }
            let cmd = parse_input(line);
            let ghost asked = cmd;
            let r = cmd.handle(map, version);
            assert(asked@ == parsed(decode_utf8(request@)) && handled(
                asked,
                old(map)@,
                old(map).capacity(),
                version.spec_bytes(),
                map@,
                r,
            ));
            r
        },
    }
}

} // verus!
