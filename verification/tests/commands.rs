use memcached_rust::cache::LruCache;
use memcached_rust::commands::{parse_input, respond, Command, CommandError, Entry};

const VERSION: &str = "0.1.0";

fn store(capacity: usize) -> LruCache<String, Entry> {
    LruCache::new(capacity)
}

#[test]
fn test_parse_input() {
    let cmd = parse_input("set abhi 0 200 rust");
    assert_eq!(
        cmd,
        Command::SetValue("abhi".to_string(), 0, 200, b"rust".to_vec())
    );

    let cmd = parse_input("get abhi");
    assert_eq!(cmd, Command::Get("abhi".to_string()));

    let cmd = parse_input("delete abhi");
    assert_eq!(cmd, Command::Delete("abhi".to_string()));

    let cmd = parse_input("blah abhi");
    assert_eq!(cmd, Command::Invalid);
}

#[test]
fn test_storage() {
    let mut store = store(100);
    let out = parse_input("set abhi 0 200 rust").handle_at(&mut store, 5_000, VERSION);
    assert_eq!(b"STORED".to_vec(), out);

    let out = parse_input("get abhi").handle_at(&mut store, 5_000, VERSION);
    assert_eq!(b"rust".to_vec(), out);

    let out = parse_input("set abhi 0 200 c++").handle_at(&mut store, 5_001, VERSION);
    assert_eq!(b"STORED".to_vec(), out);

    let out = parse_input("get abhi").handle_at(&mut store, 5_001, VERSION);
    assert_eq!(b"c++".to_vec(), out);

    let out = parse_input("set abhi 0 0 python").handle_at(&mut store, 5_002, VERSION);
    assert_eq!(b"STORED".to_vec(), out);
    let out = parse_input("get abhi").handle_at(&mut store, 5_002, VERSION);
    assert_eq!(b"python".to_vec(), out);

    let out = parse_input("set abhi 0 200 java").handle_at(&mut store, 5_003, VERSION);
    assert_eq!(b"STORED".to_vec(), out);
    let out = parse_input("get abhi").handle_at(&mut store, 5_103, VERSION);
    assert_eq!(b"java".to_vec(), out);
}

#[test]
fn test_expiry() {
    let mut store = store(100);
    let out = parse_input("set abhi 0 200 kotlin").handle_at(&mut store, 5_000, VERSION);
    assert_eq!(b"STORED".to_vec(), out);
    let out = parse_input("get abhi").handle_at(&mut store, 5_300, VERSION);
    assert_eq!(b"NOT FOUND".to_vec(), out);
}

#[test]
fn expiry_is_at_the_millisecond() {
    let mut store = store(10);
    parse_input("set k 0 100 v").handle_at(&mut store, 1_000, VERSION);
    assert_eq!(parse_input("get k").handle_at(&mut store, 1_099, VERSION), b"v".to_vec());
    assert_eq!(parse_input("get k").handle_at(&mut store, 1_100, VERSION), b"v".to_vec());
    assert_eq!(store.len(), 1);
    assert_eq!(
        parse_input("get k").handle_at(&mut store, 1_101, VERSION),
        b"NOT FOUND".to_vec()
    );
    assert_eq!(store.len(), 0);
    assert_eq!(
        parse_input("get k").handle_at(&mut store, 1_000, VERSION),
        b"NOT FOUND".to_vec()
    );
}

#[test]
fn expiry_time_zero_never_expires() {
    let mut store = store(10);
    parse_input("set k2 0 0 v2").handle_at(&mut store, 1_000, VERSION);
    assert_eq!(parse_input("get k2").handle_at(&mut store, 0, VERSION), b"v2".to_vec());
    assert_eq!(
        parse_input("get k2").handle_at(&mut store, u128::MAX, VERSION),
        b"v2".to_vec()
    );
    assert_eq!(store.head(), Entry { expires_at: 0, data: b"v2".to_vec() });
}

#[test]
fn expiry_time_boundaries() {
    let mut store = store(10);
    parse_input("set a 0 1 x").handle_at(&mut store, 7, VERSION);
    assert_eq!(store.tail(), Entry { expires_at: 8, data: b"x".to_vec() });
    assert_eq!(parse_input("get a").handle_at(&mut store, 8, VERSION), b"x".to_vec());
    assert_eq!(parse_input("get a").handle_at(&mut store, 9, VERSION), b"NOT FOUND".to_vec());

    let line = format!("set b 0 {} y", u128::MAX);
    assert_eq!(
        parse_input(&line),
        Command::SetValue("b".to_string(), 0, u128::MAX, b"y".to_vec())
    );
    parse_input(&line).handle_at(&mut store, 7, VERSION);
    assert_eq!(store.tail(), Entry { expires_at: u128::MAX, data: b"y".to_vec() });
    assert_eq!(
        parse_input("get b").handle_at(&mut store, u128::MAX, VERSION),
        b"y".to_vec()
    );

    parse_input("set c 0 5 z").handle_at(&mut store, u128::MAX - 5, VERSION);
    assert_eq!(store.tail(), Entry { expires_at: u128::MAX, data: b"z".to_vec() });
    parse_input("set d 0 5 z").handle_at(&mut store, u128::MAX - 6, VERSION);
    assert_eq!(store.tail(), Entry { expires_at: u128::MAX - 1, data: b"z".to_vec() });
}

#[test]
fn an_expired_entry_holds_its_place_until_it_is_read() {
    let mut store = store(2);
    parse_input("set a 0 10 x").handle_at(&mut store, 100, VERSION);
    parse_input("set b 0 0 y").handle_at(&mut store, 100, VERSION);
    assert_eq!(store.len(), 2);
    parse_input("set c 0 0 z").handle_at(&mut store, 500, VERSION);
    assert_eq!(store.len(), 2);
    assert_eq!(parse_input("get a").handle_at(&mut store, 500, VERSION), b"NOT FOUND".to_vec());
    assert_eq!(parse_input("get b").handle_at(&mut store, 500, VERSION), b"y".to_vec());

    parse_input("set d 0 10 w").handle_at(&mut store, 500, VERSION);
    assert_eq!(store.len(), 2);
    assert_eq!(parse_input("get d").handle_at(&mut store, 600, VERSION), b"NOT FOUND".to_vec());
    assert_eq!(store.len(), 1);
    assert_eq!(parse_input("delete d").handle_at(&mut store, 600, VERSION), b"NOT FOUND".to_vec());
}

#[test]
fn delete_and_version_and_the_rest() {
    let mut store = store(10);
    assert_eq!(parse_input("delete k").handle_at(&mut store, 1, VERSION), b"NOT FOUND".to_vec());
    parse_input("set k 0 0 v").handle_at(&mut store, 1, VERSION);
    assert_eq!(parse_input("delete k").handle_at(&mut store, 1, VERSION), b"DELETED".to_vec());
    assert_eq!(parse_input("get k").handle_at(&mut store, 1, VERSION), b"NOT FOUND".to_vec());
    assert_eq!(parse_input("version").handle_at(&mut store, 1, "9.8.7"), b"9.8.7".to_vec());
    assert_eq!(parse_input("version").handle(&mut store, "9.8.7"), Ok(b"9.8.7".to_vec()));
    assert_eq!(
        parse_input("blah").handle(&mut store, VERSION),
        Ok(b"NOT IMPLEMENTED".to_vec())
    );
    let rest = vec![
        Command::Add("k".to_string(), b"v".to_vec()),
        Command::Replace("k".to_string(), b"v".to_vec()),
        Command::Append("k".to_string(), b"v".to_vec()),
        Command::Prepend("k".to_string(), b"v".to_vec()),
        Command::Gets("k".to_string()),
        Command::Incr("k".to_string()),
        Command::Decr("k".to_string()),
        Command::Cas("k".to_string(), b"v".to_vec()),
        Command::Stats,
        Command::Flushall,
        Command::Invalid,
    ];
    for cmd in rest {
        assert_eq!(cmd.handle_at(&mut store, 1, VERSION), b"NOT IMPLEMENTED".to_vec());
    }
    assert_eq!(store.len(), 0);
}

#[test]
fn handle_reads_the_clock() {
    let mut store = store(10);
    assert_eq!(
        parse_input("set k 0 3600000 v").handle(&mut store, VERSION),
        Ok(b"STORED".to_vec())
    );
    let entry = store.head();
    assert!(entry.expires_at > 1_600_000_000_000 + 3_600_000);
    assert_eq!(parse_input("get k").handle(&mut store, VERSION), Ok(b"v".to_vec()));
    assert_eq!(parse_input("delete k").handle(&mut store, VERSION), Ok(b"DELETED".to_vec()));
    assert_eq!(parse_input("get k").handle(&mut store, VERSION), Ok(b"NOT FOUND".to_vec()));
    assert_ne!(
        parse_input("get k").handle(&mut store, VERSION),
        Err(CommandError::Clock)
    );
}

#[test]
fn get_promotes_in_the_store() {
    let mut store = store(2);
    parse_input("set a 0 0 1").handle_at(&mut store, 1, VERSION);
    parse_input("set b 0 0 2").handle_at(&mut store, 1, VERSION);
    assert_eq!(parse_input("get a").handle_at(&mut store, 1, VERSION), b"1".to_vec());
    parse_input("set c 0 0 3").handle_at(&mut store, 1, VERSION);
    assert_eq!(parse_input("get b").handle_at(&mut store, 1, VERSION), b"NOT FOUND".to_vec());
    assert_eq!(parse_input("get a").handle_at(&mut store, 1, VERSION), b"1".to_vec());
    assert_eq!(parse_input("get c").handle_at(&mut store, 1, VERSION), b"3".to_vec());
}

#[test]
fn round_trip_is_byte_for_byte() {
    let mut store = store(4);
    let cmd = Command::SetValue("k".to_string(), 7, 0, vec![0, 255, 10, 32, 13, 200]);
    assert_eq!(cmd.handle_at(&mut store, 1, VERSION), b"STORED".to_vec());
    assert_eq!(
        Command::Get("k".to_string()).handle_at(&mut store, 2, VERSION),
        vec![0, 255, 10, 32, 13, 200]
    );
    parse_input("set caf\u{e9} 0 0 \u{20ac}uro").handle_at(&mut store, 1, VERSION);
    assert_eq!(
        parse_input("get caf\u{e9}").handle_at(&mut store, 1, VERSION),
        "\u{20ac}uro".as_bytes().to_vec()
    );
}

#[test]
fn parse_takes_white_space_between_tokens() {
    assert_eq!(parse_input("get abhi\r\n"), Command::Get("abhi".to_string()));
    assert_eq!(parse_input("  \t get abhi \n"), Command::Get("abhi".to_string()));
    assert_eq!(parse_input("\u{a0}get abhi\u{3000}"), Command::Get("abhi".to_string()));
    assert_eq!(parse_input("get\tabhi"), Command::Get("abhi".to_string()));
    assert_eq!(parse_input("get  abhi"), Command::Get("abhi".to_string()));
    assert_eq!(parse_input("get \t\r\n abhi"), Command::Get("abhi".to_string()));
    assert_eq!(parse_input("get\u{2003}abhi"), Command::Get("abhi".to_string()));
    assert_eq!(parse_input("delete\tabhi"), Command::Delete("abhi".to_string()));
    assert_eq!(
        parse_input("set\tabhi  0\t200 \t rust\n"),
        Command::SetValue("abhi".to_string(), 0, 200, b"rust".to_vec())
    );
    assert_eq!(parse_input("version"), Command::Version);
    assert_eq!(parse_input(" version\n"), Command::Version);
}

#[test]
fn parse_counts_tokens() {
    assert_eq!(parse_input("version 1"), Command::Invalid);
    assert_eq!(parse_input(""), Command::Invalid);
    assert_eq!(parse_input("   "), Command::Invalid);
    assert_eq!(parse_input("\t\r\n"), Command::Invalid);
    assert_eq!(parse_input("get"), Command::Invalid);
    assert_eq!(parse_input("get a b"), Command::Invalid);
    assert_eq!(parse_input("get a\tb"), Command::Invalid);
    assert_eq!(parse_input("delete"), Command::Invalid);
    assert_eq!(parse_input("delete a b"), Command::Invalid);
    assert_eq!(parse_input("GET abhi"), Command::Invalid);
    assert_eq!(parse_input("gets abhi"), Command::Invalid);
    assert_eq!(parse_input("set abhi 0 200"), Command::Invalid);
    assert_eq!(parse_input("set abhi 0 200 rust more"), Command::Invalid);
    assert_eq!(parse_input("set abhi 0 200 "), Command::Invalid);
    assert_eq!(parse_input("set  0 200 rust"), Command::Invalid);
}

#[test]
fn parse_reads_numbers() {
    assert_eq!(
        parse_input("set k +5 007 v"),
        Command::SetValue("k".to_string(), 5, 7, b"v".to_vec())
    );
    assert_eq!(
        parse_input(&format!("set k {} {} v", usize::MAX, u128::MAX)),
        Command::SetValue("k".to_string(), usize::MAX, u128::MAX, b"v".to_vec())
    );
    assert_eq!(
        parse_input("set k 0 340282366920938463463374607431768211456 v"),
        Command::Invalid
    );
    assert_eq!(
        parse_input("set k 340282366920938463463374607431768211455 0 v"),
        Command::Invalid
    );
    assert_eq!(parse_input("set k x 0 v"), Command::Invalid);
    assert_eq!(parse_input("set k 0 y v"), Command::Invalid);
    assert_eq!(parse_input("set k -1 0 v"), Command::Invalid);
    assert_eq!(parse_input("set k 0 1.5 v"), Command::Invalid);
    assert_eq!(parse_input("set k + 0 v"), Command::Invalid);
    assert_eq!(parse_input("set k ++1 0 v"), Command::Invalid);
    assert_eq!(parse_input("set k 1 \u{661} v"), Command::Invalid);
    assert_eq!(parse_input("set k 0 12a v"), Command::Invalid);
}

#[test]
fn requests_are_answered_from_bytes() {
    let mut store = store(10);
    assert_eq!(respond(&mut store, b"set abhi 0 0 rust", VERSION), Ok(b"STORED".to_vec()));
    assert_eq!(respond(&mut store, b"get abhi\r\n", VERSION), Ok(b"rust".to_vec()));
    assert_eq!(respond(&mut store, b"version", "1.2.3"), Ok(b"1.2.3".to_vec()));
    assert_eq!(respond(&mut store, b"", VERSION), Ok(b"NOT IMPLEMENTED".to_vec()));
    assert_eq!(
        respond(&mut store, "set caf\u{e9} 0 0 \u{20ac}".as_bytes(), VERSION),
        Ok(b"STORED".to_vec())
    );
    assert_eq!(
        respond(&mut store, "get caf\u{e9}".as_bytes(), VERSION),
        Ok("\u{20ac}".as_bytes().to_vec())
    );
    assert_eq!(store.len(), 2);
}

#[test]
fn bytes_that_are_no_text_are_refused() {
    let mut store = store(10);
    respond(&mut store, b"set k 0 0 v", VERSION).unwrap();
    assert_eq!(
        respond(&mut store, &[b'g', b'e', b't', b' ', 0xff], VERSION),
        Err(CommandError::NotText)
    );
    assert_eq!(
        respond(&mut store, &[b'd', b'e', b'l', b'e', b't', b'e', b' ', b'k', 0xc3], VERSION),
        Err(CommandError::NotText)
    );
    assert_eq!(store.len(), 1);
    assert_eq!(respond(&mut store, b"get k", VERSION), Ok(b"v".to_vec()));
}

fn read_with_std(input: &str) -> Command {
    let tokens: Vec<&str> = input.split_whitespace().collect();
    if tokens.is_empty() {
        return Command::Invalid;
    }
    match tokens[0] {
        "set" if tokens.len() == 5 => {
            match (tokens[2].parse::<usize>(), tokens[3].parse::<u128>()) {
                (Ok(flags), Ok(exptime)) => Command::SetValue(
                    tokens[1].to_string(),
                    flags,
                    exptime,
                    tokens[4].as_bytes().to_vec(),
                ),
                _ => Command::Invalid,
            }
        }
        "get" if tokens.len() == 2 => Command::Get(tokens[1].to_string()),
        "delete" if tokens.len() == 2 => Command::Delete(tokens[1].to_string()),
        "version" if tokens.len() == 1 => Command::Version,
        _ => Command::Invalid,
    }
}

#[test]
fn parse_agrees_with_split_and_parse_of_std() {
    let pieces = [
        "set", "get", "delete", "version", " ", " ", " ", "\t", "\r\n", "k", "key", "0", "1",
        "200", "+", "-", "x", "\u{e9}", "\u{a0}", "\u{2003}", "99999999999999999999",
        "340282366920938463463374607431768211455", "340282366920938463463374607431768211456",
    ];
    let mut state: u64 = 7;
    for _ in 0..20000 {
        let mut line = String::new();
        state = state
            .wrapping_mul(6364136223846793005)
            .wrapping_add(1442695040888963407);
        let count = (state >> 40) % 12;
        for _ in 0..count {
            state = state
                .wrapping_mul(6364136223846793005)
                .wrapping_add(1442695040888963407);
            line.push_str(pieces[((state >> 33) % pieces.len() as u64) as usize]);
        }
        assert_eq!(parse_input(&line), read_with_std(&line), "{:?}", line);
    }
}
