//! Commands: reading a request's byte strings into a command, running it
//! against the store and the configuration, and answering a whole frame.
use vstd::prelude::*;

use crate::bytes::{append_bytes, ascii_bytes, ascii_lower, bytes_of, clone_bytes, is_word, to_ascii_lower};
use crate::parser::{fill, OptionalArgs};
use crate::resp::{
    byte_views, parse_client_bytes, parse_digits, parse_request, parse_unsigned, render,
    well_formed, BulkString, Null, Reply, Resp, SimpleError, SimpleString, Array,
};
use crate::store::{expired, live, RandomMap, RedisValue, Stored};

verus! {

/// Why a command was refused.
#[derive(Debug)]
pub enum CommandError {
    /// The request holds no byte string at all.
    Empty,
    /// The command name (lower-cased) is not known.
    UnknownCommand(Vec<u8>),
    /// `CONFIG` came without a subcommand.
    MissingSubcommand,
    /// The `CONFIG` subcommand (lower-cased) is not known.
    UnknownSubcommand(Vec<u8>),
    /// The command got the wrong number of arguments.
    WrongArity,
    /// An optional argument (lower-cased) is not known, or lacks its value.
    UnknownOptionalArg(Vec<u8>),
    /// `PX` and `EX` were both given.
    MutuallyExclusive,
    /// A `PX` or `EX` value is not a non-negative decimal that fits in 64 bits.
    NotANumber,
    /// An expiry does not fit in 64 bits of milliseconds.
    Overflow,
}

/// What a `CommandError` means.
pub enum Failure {
    Empty,
    UnknownCommand(Seq<u8>),
    MissingSubcommand,
    UnknownSubcommand(Seq<u8>),
    WrongArity,
    UnknownOptionalArg(Seq<u8>),
    MutuallyExclusive,
    NotANumber,
    Overflow,
}

impl View for CommandError {
    type V = Failure;

    open spec fn view(&self) -> Failure {
        match self {
            CommandError::Empty => Failure::Empty,
            CommandError::UnknownCommand(n) => Failure::UnknownCommand(n@),
            CommandError::MissingSubcommand => Failure::MissingSubcommand,
            CommandError::UnknownSubcommand(n) => Failure::UnknownSubcommand(n@),
            CommandError::WrongArity => Failure::WrongArity,
            CommandError::UnknownOptionalArg(t) => Failure::UnknownOptionalArg(t@),
            CommandError::MutuallyExclusive => Failure::MutuallyExclusive,
            CommandError::NotANumber => Failure::NotANumber,
            CommandError::Overflow => Failure::Overflow,
        }
    }
}

/// The text of the error reply for a failure.
pub open spec fn message(f: Failure) -> Seq<u8> {
    match f {
        Failure::Empty => bytes_of("ERR command is empty"@),
        Failure::UnknownCommand(n) => bytes_of("ERR unknown command '"@) + n + bytes_of("'"@),
        Failure::MissingSubcommand => bytes_of("ERR CONFIG subcommand missing"@),
        Failure::UnknownSubcommand(n) => bytes_of("ERR unknown CONFIG subcommand '"@) + n
            + bytes_of("'"@),
        Failure::WrongArity => bytes_of("ERR wrong number of arguments"@),
        Failure::UnknownOptionalArg(t) => bytes_of("ERR unknown optional argument '"@) + t
            + bytes_of("'"@),
        Failure::MutuallyExclusive => bytes_of("ERR SET PX and EX are mutually exclusive"@),
        Failure::NotANumber => bytes_of("ERR SET expiry is not a number"@),
        Failure::Overflow => bytes_of("ERR SET expiry overflows"@),
    }
}

impl CommandError {
    /// The error reply for this error.
    pub fn to_reply(&self) -> (r: SimpleError)
        ensures
            r.0@ == message(self@),
    {
        proof {
            reveal_strlit("ERR command is empty");
            reveal_strlit("ERR unknown command '");
            reveal_strlit("'");
            reveal_strlit("ERR CONFIG subcommand missing");
            reveal_strlit("ERR unknown CONFIG subcommand '");
            reveal_strlit("ERR wrong number of arguments");
            reveal_strlit("ERR unknown optional argument '");
            reveal_strlit("ERR SET PX and EX are mutually exclusive");
            reveal_strlit("ERR SET expiry is not a number");
            reveal_strlit("ERR SET expiry overflows");
        }
        let text = match self {
            CommandError::Empty => ascii_bytes("ERR command is empty"),
            CommandError::UnknownCommand(n) => {
                let mut t = ascii_bytes("ERR unknown command '");
                append_bytes(&mut t, n.as_slice());
                let q = ascii_bytes("'");
                append_bytes(&mut t, q.as_slice());
                t
            },
            CommandError::MissingSubcommand => ascii_bytes("ERR CONFIG subcommand missing"),
            CommandError::UnknownSubcommand(n) => {
                let mut t = ascii_bytes("ERR unknown CONFIG subcommand '");
                append_bytes(&mut t, n.as_slice());
                let q = ascii_bytes("'");
                append_bytes(&mut t, q.as_slice());
                t
            },
            CommandError::WrongArity => ascii_bytes("ERR wrong number of arguments"),
            CommandError::UnknownOptionalArg(n) => {
                let mut t = ascii_bytes("ERR unknown optional argument '");
                append_bytes(&mut t, n.as_slice());
                let q = ascii_bytes("'");
                append_bytes(&mut t, q.as_slice());
                t
            },
            CommandError::MutuallyExclusive => ascii_bytes("ERR SET PX and EX are mutually exclusive"),
            CommandError::NotANumber => ascii_bytes("ERR SET expiry is not a number"),
            CommandError::Overflow => ascii_bytes("ERR SET expiry overflows"),
        };
        SimpleError(text)
    }
}

/// `PING [message]`: the message to answer with.
pub struct Ping(pub Vec<u8>);

/// `ECHO message`.
pub struct Echo(pub Vec<u8>);

/// `SET key value`, with the time to live in milliseconds when one was given.
pub struct SetValue {
    pub key: Vec<u8>,
    pub value: Vec<u8>,
    pub ttl_ms: Option<u64>,
}

/// `GET key`.
pub struct Get {
    pub key: Vec<u8>,
}

/// `CONFIG GET name...`: the names as given.
pub struct ConfigGet {
    pub keys: Vec<Vec<u8>>,
}

/// A command that the server runs.
pub enum Cmd {
    Ping(Ping),
    Echo(Echo),
    SetValue(SetValue),
    Get(Get),
    ConfigGet(ConfigGet),
}

/// What a command means.
pub enum CmdSpec {
    Ping(Seq<u8>),
    Echo(Seq<u8>),
    SetValue(Seq<u8>, Seq<u8>, Option<u64>),
    Get(Seq<u8>),
    ConfigGet(Seq<Seq<u8>>),
}

impl View for Cmd {
    type V = CmdSpec;

    open spec fn view(&self) -> CmdSpec {
        match self {
            Cmd::Ping(p) => CmdSpec::Ping(p.0@),
            Cmd::Echo(e) => CmdSpec::Echo(e.0@),
            Cmd::SetValue(s) => CmdSpec::SetValue(s.key@, s.value@, s.ttl_ms),
            Cmd::Get(g) => CmdSpec::Get(g.key@),
            Cmd::ConfigGet(c) => CmdSpec::ConfigGet(byte_views(c.keys@)),
        }
    }
}

/// A `PX` or `EX` value: a decimal that fits in 64 bits.
pub open spec fn parse_u64(s: Seq<u8>) -> Option<u64> {
    match parse_unsigned(s) {
        Some(v) => if v <= u64::MAX {
            Some(v as u64)
        } else {
            None
        },
        None => None,
    }
}

/// The optional keywords of `SET`, before any is read.
pub open spec fn set_keywords() -> Seq<(Seq<u8>, Option<Seq<u8>>)> {
    seq![(bytes_of("px"@), None), (bytes_of("ex"@), None)]
}

/// `SET key value [PX ms | EX s]`, from the arguments after the name.
pub open spec fn set_of(rest: Seq<Seq<u8>>) -> Result<CmdSpec, Failure> {
    if rest.len() < 2 {
        Err(Failure::WrongArity)
    } else {
        match fill(set_keywords(), Seq::empty(), rest.skip(2), 0) {
            Err(x) => Err(Failure::UnknownOptionalArg(x)),
            Ok((a, _)) => match (a[0].1, a[1].1) {
                (Some(_), Some(_)) => Err(Failure::MutuallyExclusive),
                (Some(p), None) => match parse_u64(p) {
                    Some(ms) => Ok(CmdSpec::SetValue(rest[0], rest[1], Some(ms))),
                    None => Err(Failure::NotANumber),
                },
                (None, Some(e)) => match parse_u64(e) {
                    Some(secs) => if secs * 1000 <= u64::MAX {
                        Ok(CmdSpec::SetValue(rest[0], rest[1], Some((secs * 1000) as u64)))
                    } else {
                        Err(Failure::Overflow)
                    },
                    None => Err(Failure::NotANumber),
                },
                (None, None) => Ok(CmdSpec::SetValue(rest[0], rest[1], None)),
            },
        }
    }
}

/// The command that a request's byte strings name. The command name and
/// the `CONFIG` subcommand are matched case-insensitively.
pub open spec fn cmd_of(args: Seq<Seq<u8>>) -> Result<CmdSpec, Failure> {
    if args.len() == 0 {
        Err(Failure::Empty)
    } else {
        let name = ascii_lower(args[0]);
        let rest = args.skip(1);
        if name == bytes_of("ping"@) {
            if rest.len() == 0 {
                Ok(CmdSpec::Ping(bytes_of("PONG"@)))
            } else if rest.len() == 1 {
                Ok(CmdSpec::Ping(rest[0]))
            } else {
                Err(Failure::WrongArity)
            }
        } else if name == bytes_of("echo"@) {
            if rest.len() == 1 {
                Ok(CmdSpec::Echo(rest[0]))
            } else {
                Err(Failure::WrongArity)
            }
        } else if name == bytes_of("set"@) {
            set_of(rest)
        } else if name == bytes_of("get"@) {
            if rest.len() == 1 {
                Ok(CmdSpec::Get(rest[0]))
            } else {
                Err(Failure::WrongArity)
            }
        } else if name == bytes_of("config"@) {
            if rest.len() == 0 {
                Err(Failure::MissingSubcommand)
            } else {
                let sub = ascii_lower(rest[0]);
                if sub == bytes_of("get"@) {
                    if rest.len() < 2 {
                        Err(Failure::WrongArity)
                    } else {
                        Ok(CmdSpec::ConfigGet(rest.skip(1)))
                    }
                } else {
                    Err(Failure::UnknownSubcommand(sub))
                }
            }
        } else {
            Err(Failure::UnknownCommand(name))
        }
    }
}


proof fn lemma_fill_len(
    a: Seq<(Seq<u8>, Option<Seq<u8>>)>,
    f: Seq<(Seq<u8>, bool)>,
    toks: Seq<Seq<u8>>,
    i: nat,
)
    ensures
        fill(a, f, toks, i) matches Ok((a2, _)) ==> a2.len() == a.len(),
    decreases toks.len() - i,
{
    if i < toks.len() {
        let x = ascii_lower(toks[i as int]);
        crate::parser::lemma_position_bound(f, x, 0);
        crate::parser::lemma_position_bound(a, x, 0);
        match crate::parser::position_of(f, x, 0) {
            Some(j) => lemma_fill_len(a, f.update(j as int, (x, true)), toks, i + 1),
            None => match crate::parser::position_of(a, x, 0) {
                Some(j) => if i + 1 < toks.len() {
                    lemma_fill_len(a.update(j as int, (x, Some(toks[i + 1 as int]))), f, toks, i + 2);
                },
                None => {},
            },
        }
    }
}

/// Copies of `args[from..]`.
fn clone_from(args: &[Vec<u8>], from: usize) -> (r: Vec<Vec<u8>>)
    requires
        from <= args@.len(),
    ensures
        byte_views(r@) == byte_views(args@).skip(from as int),
{
    let mut out: Vec<Vec<u8>> = Vec::new();
    let mut i: usize = from;
    while i < args.len()
        invariant
            from <= i <= args@.len(),
            out@.len() == i - from,
            forall|j: int| 0 <= j < out@.len() ==> (#[trigger] out@[j])@ == args@[from + j]@,
        decreases args@.len() - i,
    {
        out.push(clone_bytes(&args[i]));
        i += 1;
    }
    assert(byte_views(out@) =~= byte_views(args@).skip(from as int));
    out
}

impl Cmd {
    /// `SET key value [PX ms | EX s]`; `args` holds the name first.
    fn set_from_args(args: &[Vec<u8>]) -> (r: Result<Cmd, CommandError>)
        requires
            args@.len() >= 1,
        ensures
            match set_of(byte_views(args@).skip(1)) {
                Ok(c) => r matches Ok(x) && x@ == c,
                Err(f) => r matches Err(e) && e@ == f,
            },
    {
        let ghost rest = byte_views(args@).skip(1);
        if args.len() < 3 {
            return Err(CommandError::WrongArity);
        }
        proof {
            reveal_strlit("px");
            reveal_strlit("ex");
        }
        let keys: Vec<Vec<u8>> = vec![ascii_bytes("px"), ascii_bytes("ex")];
        let no_flags: Vec<Vec<u8>> = Vec::new();
        let mut opt = OptionalArgs::new(keys.as_slice(), no_flags.as_slice());
        assert(crate::parser::args_model(opt.args@) =~= set_keywords()) by {
            assert(ascii_lower(keys@[0]@) =~= bytes_of("px"@));
            assert(ascii_lower(keys@[1]@) =~= bytes_of("ex"@));
        }
        assert(crate::parser::flags_model(opt.flags@) =~= Seq::<(Seq<u8>, bool)>::empty());
        let tail = &args[3..args.len()];
        assert(byte_views(tail@) =~= rest.skip(2));
        proof {
            lemma_fill_len(set_keywords(), Seq::empty(), rest.skip(2), 0);
        }
        match opt.insert_from_iter(tail) {
            Err(x) => Err(CommandError::UnknownOptionalArg(x)),
            Ok(()) => {
                let ghost a = crate::parser::args_model(opt.args@);
                assert(opt.args@.len() == 2);
                let key = clone_bytes(&args[1]);
                let value = clone_bytes(&args[2]);
                match (&opt.args[0].1, &opt.args[1].1) {
                    (Some(_), Some(_)) => Err(CommandError::MutuallyExclusive),
                    (Some(p), None) => {
                        assert(p@.subrange(0, p@.len() as int) =~= p@);
                        match parse_digits(p.as_slice(), 0, p.len()) {
                            Some(ms) => Ok(Cmd::SetValue(SetValue { key, value, ttl_ms: Some(ms) })),
                            None => Err(CommandError::NotANumber),
                        }
                    },
                    (None, Some(e)) => {
                        assert(e@.subrange(0, e@.len() as int) =~= e@);
                        match parse_digits(e.as_slice(), 0, e.len()) {
                            Some(secs) => match secs.checked_mul(1000) {
                                Some(ms) => Ok(
                                    Cmd::SetValue(SetValue { key, value, ttl_ms: Some(ms) }),
                                ),
                                None => Err(CommandError::Overflow),
                            },
                            None => Err(CommandError::NotANumber),
                        }
                    },
                    (None, None) => Ok(Cmd::SetValue(SetValue { key, value, ttl_ms: None })),
                }
            },
        }
    }

    /// The command that a request's byte strings name: the name first, then
    /// its arguments.
    pub fn from_args(args: &[Vec<u8>]) -> (r: Result<Cmd, CommandError>)
        ensures
            match cmd_of(byte_views(args@)) {
                Ok(c) => r matches Ok(x) && x@ == c,
                Err(f) => r matches Err(e) && e@ == f,
            },
    {
        let ghost a = byte_views(args@);
        if args.len() == 0 {
            return Err(CommandError::Empty);
        }
        let ghost rest = a.skip(1);
        let n = args.len() - 1;
        proof {
            reveal_strlit("ping");
            reveal_strlit("PONG");
            reveal_strlit("echo");
            reveal_strlit("set");
            reveal_strlit("get");
            reveal_strlit("config");
        }
        let name = to_ascii_lower(args[0].as_slice());
        if is_word(name.as_slice(), "ping") {
            if n == 0 {
                Ok(Cmd::Ping(Ping(ascii_bytes("PONG"))))
            } else if n == 1 {
                Ok(Cmd::Ping(Ping(clone_bytes(&args[1]))))
            } else {
                Err(CommandError::WrongArity)
            }
        } else if is_word(name.as_slice(), "echo") {
            if n == 1 {
                Ok(Cmd::Echo(Echo(clone_bytes(&args[1]))))
            } else {
                Err(CommandError::WrongArity)
            }
        } else if is_word(name.as_slice(), "set") {
            Self::set_from_args(args)
        } else if is_word(name.as_slice(), "get") {
            if n == 1 {
                Ok(Cmd::Get(Get { key: clone_bytes(&args[1]) }))
            } else {
                Err(CommandError::WrongArity)
            }
        } else if is_word(name.as_slice(), "config") {
            if n == 0 {
                Err(CommandError::MissingSubcommand)
            } else {
                let sub = to_ascii_lower(args[1].as_slice());
                if is_word(sub.as_slice(), "get") {
                    if n < 2 {
                        Err(CommandError::WrongArity)
                    } else {
                        let keys = clone_from(args, 2);
                        assert(byte_views(keys@) =~= rest.skip(1));
                        Ok(Cmd::ConfigGet(ConfigGet { keys }))
                    }
                } else {
                    Err(CommandError::UnknownSubcommand(sub))
                }
            }
        } else {
            Err(CommandError::UnknownCommand(name))
        }
    }
}


/// Lexicographic order on byte strings: the order of `Ord` on byte vectors.
pub open spec fn lex_le(a: Seq<u8>, b: Seq<u8>) -> bool
    decreases a.len(),
{
    if a.len() == 0 {
        true
    } else if b.len() == 0 {
        false
    } else if a[0] < b[0] {
        true
    } else if a[0] > b[0] {
        false
    } else {
        lex_le(a.skip(1), b.skip(1))
    }
}

/// Each byte string lower-cased.
pub open spec fn lowered_all(ks: Seq<Seq<u8>>) -> Seq<Seq<u8>> {
    Seq::new(ks.len(), |i: int| ascii_lower(ks[i]))
}

/// `ks` holds the byte strings of `src`, each once, in strictly increasing
/// lexicographic order.
pub open spec fn sorted_unique_of(ks: Seq<Seq<u8>>, src: Seq<Seq<u8>>) -> bool {
    &&& forall|j: int| 0 <= j < ks.len() ==> src.contains(#[trigger] ks[j])
    &&& forall|m: int| 0 <= m < src.len() ==> ks.contains(#[trigger] src[m])
    &&& forall|j: int|
        0 <= j < ks.len() - 1 ==> lex_le(#[trigger] ks[j], ks[j + 1]) && ks[j] != ks[j + 1]
}

/// The items of a `CONFIG GET` reply for the first `n` keys: each key that
/// is set, followed by its value; keys that are not set are left out.
pub open spec fn config_items(
    ks: Seq<Seq<u8>>,
    cfg: Map<Seq<u8>, Stored>,
    now: u64,
    n: nat,
) -> Seq<Reply>
    decreases n,
{
    if n == 0 || n > ks.len() {
        Seq::empty()
    } else {
        let prev = config_items(ks, cfg, now, (n - 1) as nat);
        let k = ks[n - 1];
        if live(cfg, k, now) {
            prev + seq![Reply::Bulk(k), Reply::Bulk(cfg[k].0)]
        } else {
            prev
        }
    }
}

/// The absolute expiry for a time to live, or `None` when it overflows.
pub open spec fn expiry_after(ttl: Option<u64>, now: u64) -> Option<Option<u64>> {
    match ttl {
        None => Some(None),
        Some(ms) => if now + ms <= u64::MAX {
            Some(Some((now + ms) as u64))
        } else {
            None
        },
    }
}

/// Running command `c` at time `now` against store `db0` and configuration
/// `cfg` gives `out` and leaves the store as `db1`.
pub open spec fn run_outcome(
    c: CmdSpec,
    db0: Map<Seq<u8>, Stored>,
    db1: Map<Seq<u8>, Stored>,
    cfg: Map<Seq<u8>, Stored>,
    now: u64,
    out: Result<Reply, Failure>,
) -> bool {
    match c {
        CmdSpec::Ping(s) => out == Ok::<Reply, Failure>(Reply::Simple(s)) && db1 == db0,
        CmdSpec::Echo(s) => out == Ok::<Reply, Failure>(Reply::Simple(s)) && db1 == db0,
        CmdSpec::SetValue(k, v, ttl) => match expiry_after(ttl, now) {
            Some(e) => out == Ok::<Reply, Failure>(Reply::Simple(bytes_of("OK"@))) && db1
                == db0.insert(k, (v, e)),
            None => out == Err::<Reply, Failure>(Failure::Overflow) && db1 == db0,
        },
        CmdSpec::Get(k) => {
            &&& if live(db0, k, now) {
                out == Ok::<Reply, Failure>(Reply::Bulk(db0[k].0))
            } else {
                out == Ok::<Reply, Failure>(Reply::Null)
            }
            &&& db1 == if db0.contains_key(k) && expired(db0[k], now) {
                db0.remove(k)
            } else {
                db0
            }
        },
        CmdSpec::ConfigGet(keys) => db1 == db0 && exists|ks: Seq<Seq<u8>>|
            #[trigger] sorted_unique_of(ks, lowered_all(keys)) && out == Ok::<Reply, Failure>(
                Reply::Array(config_items(ks, cfg, now, ks.len())),
            ),
    }
}

/// The view of a command's result.
pub open spec fn outcome_view(r: Result<Resp, CommandError>) -> Result<Reply, Failure> {
    match r {
        Ok(x) => Ok(x@),
        Err(e) => Err(e@),
    }
}

/// Relies on std's `slice::sort`: it orders the vector ascending by `Ord`,
/// which on byte vectors is lexicographic order, and keeps its elements.
#[verifier::external_body]
fn sort_bytes(v: &mut Vec<Vec<u8>>)
    ensures
        final(v)@.len() == old(v)@.len(),
        byte_views(final(v)@).to_multiset() == byte_views(old(v)@).to_multiset(),
        forall|i: int|
            0 <= i < final(v)@.len() - 1 ==> lex_le(#[trigger] final(v)@[i]@, final(v)@[i + 1]@),
{
    v.sort()
}

/// Keeps the first of each run of equal byte strings in a sorted list.
fn dedup_sorted(v: &Vec<Vec<u8>>) -> (r: Vec<Vec<u8>>)
    requires
        forall|i: int| 0 <= i < v@.len() - 1 ==> lex_le(#[trigger] v@[i]@, v@[i + 1]@),
    ensures
        sorted_unique_of(byte_views(r@), byte_views(v@)),
{
    let ghost src = byte_views(v@);
    let mut out: Vec<Vec<u8>> = Vec::new();
    let mut i: usize = 0;
    while i < v.len()
        invariant
            src == byte_views(v@),
            forall|i: int| 0 <= i < v@.len() - 1 ==> lex_le(#[trigger] v@[i]@, v@[i + 1]@),
            i <= v@.len(),
            i > 0 ==> out@.len() > 0 && out@.last()@ == v@[i - 1]@,
            i == 0 ==> out@.len() == 0,
            forall|j: int| 0 <= j < out@.len() ==> src.contains(#[trigger] out@[j]@),
            forall|m: int| 0 <= m < i ==> byte_views(out@).contains(#[trigger] src[m]),
            forall|j: int|
                0 <= j < out@.len() - 1 ==> lex_le(#[trigger] out@[j]@, out@[j + 1]@) && out@[j]@
                    != out@[j + 1]@,
        decreases v@.len() - i,
    {
        assert(src[i as int] == v@[i as int]@);
        let fresh = out.len() == 0 || !crate::bytes::bytes_eq(
            out[out.len() - 1].as_slice(),
            v[i].as_slice(),
        );
        let ghost before = out@;
        if fresh {
            out.push(clone_bytes(&v[i]));
            proof {
                let bo = byte_views(out@);
                assert forall|m: int| 0 <= m < i + 1 implies bo.contains(#[trigger] src[m]) by {
                    if m < i {
                        let j = choose|j: int| 0 <= j < byte_views(before).len() && byte_views(before)[j] == src[m];
                        assert(bo[j] == src[m]);
                    } else {
                        assert(bo[out@.len() - 1] == src[m]);
                    }
                }
                assert forall|j: int| 0 <= j < out@.len() implies src.contains(#[trigger] out@[j]@) by {
                    if j < before.len() {
                        assert(out@[j] == before[j]);
                    } else {
                        assert(src[i as int] == out@[j]@);
                    }
                }
                if i > 0 {
                    assert(lex_le(v@[i - 1]@, v@[i as int]@));
                }
            }
        } else {
            proof {
                let bo = byte_views(out@);
                assert forall|m: int| 0 <= m < i + 1 implies bo.contains(#[trigger] src[m]) by {
                    if m == i {
                        assert(bo[out@.len() - 1] == src[m]);
                    }
                }
            }
        }
        i += 1;
    }
    proof {
        let bo = byte_views(out@);
        assert forall|j: int| 0 <= j < bo.len() implies src.contains(#[trigger] bo[j]) by {
            assert(bo[j] == out@[j]@);
        }
        assert forall|j: int| 0 <= j < bo.len() - 1 implies lex_le(#[trigger] bo[j], bo[j + 1])
            && bo[j] != bo[j + 1] by {
            assert(bo[j] == out@[j]@);
            assert(bo[j + 1] == out@[j + 1]@);
        }
    }
    out
}


/// Moves the contents from a byte list with the same multiset of entries.
proof fn lemma_same_entries(ks: Seq<Seq<u8>>, a: Seq<Seq<u8>>, b: Seq<Seq<u8>>)
    requires
        sorted_unique_of(ks, a),
        a.to_multiset() == b.to_multiset(),
    ensures
        sorted_unique_of(ks, b),
{
    a.to_multiset_ensures();
    b.to_multiset_ensures();
    assert forall|m: int| 0 <= m < b.len() implies ks.contains(#[trigger] b[m]) by {
        assert(b.contains(b[m]));
        assert(b.to_multiset().count(b[m]) > 0);
        assert(a.to_multiset().count(b[m]) > 0);
        assert(a.contains(b[m]));
        let i = choose|i: int| 0 <= i < a.len() && a[i] == b[m];
        assert(ks.contains(a[i]));
    }
    assert forall|j: int| 0 <= j < ks.len() implies b.contains(#[trigger] ks[j]) by {
        assert(a.contains(ks[j]));
        assert(a.to_multiset().count(ks[j]) > 0);
        assert(b.to_multiset().count(ks[j]) > 0);
    }
}

/// The items of the `CONFIG GET` reply for `keys`: they are lower-cased,
/// sorted and freed of duplicates, then each that is set in the
/// configuration gives its name and its value.
fn config_get(keys: &Vec<Vec<u8>>, config: &RandomMap, now: u64) -> (r: Vec<Resp>)
    requires
        config.wf(),
    ensures
        exists|ks: Seq<Seq<u8>>|
            sorted_unique_of(ks, lowered_all(byte_views(keys@))) && Array(r)@ == config_items(
                ks,
                config@,
                now,
                ks.len(),
            ),
{
    let ghost want = lowered_all(byte_views(keys@));
    let mut lowered: Vec<Vec<u8>> = Vec::new();
    let mut i: usize = 0;
    while i < keys.len()
        invariant
            i <= keys@.len(),
            want == lowered_all(byte_views(keys@)),
            lowered@.len() == i,
            forall|j: int| 0 <= j < i ==> (#[trigger] lowered@[j])@ == want[j],
        decreases keys@.len() - i,
    {
        lowered.push(to_ascii_lower(keys[i].as_slice()));
        i += 1;
    }
    assert(byte_views(lowered@) =~= want);
    let mut sorted = lowered;
    sort_bytes(&mut sorted);
    let ks = dedup_sorted(&sorted);
    let ghost kv = byte_views(ks@);
    proof {
        lemma_same_entries(kv, byte_views(sorted@), want);
    }
    let mut items: Vec<Resp> = Vec::new();
    let mut j: usize = 0;
    while j < ks.len()
        invariant
            config.wf(),
            kv == byte_views(ks@),
            j <= ks@.len(),
            items@.len() == config_items(kv, config@, now, j as nat).len(),
            forall|m: int|
                0 <= m < items@.len() ==> (#[trigger] items@[m])@ == config_items(
                    kv,
                    config@,
                    now,
                    j as nat,
                )[m],
        decreases ks@.len() - j,
    {
        let ghost prev = config_items(kv, config@, now, j as nat);
        assert(kv[j as int] == ks@[j as int]@);
        match config.peek(ks[j].as_slice(), now) {
            Some(v) => {
                items.push(Resp::BulkString(BulkString(clone_bytes(&ks[j]))));
                items.push(Resp::BulkString(BulkString(v.content)));
            },
            None => {},
        }
        j += 1;
    }
    let a = Array(items);
    assert(a@ =~= config_items(kv, config@, now, kv.len()));
    a.0
}

impl Cmd {
    /// Runs the command at time `now` (milliseconds since the Unix epoch)
    /// against the store and the configuration. `GET` answers with a bulk
    /// string, the form the protocol gives for stored values.
    pub fn run(self, db: &mut RandomMap, config: &RandomMap, now: u64) -> (r: Result<
        Resp,
        CommandError,
    >)
        requires
            old(db).wf(),
            config.wf(),
        ensures
            final(db).wf(),
            run_outcome(self@, old(db)@, final(db)@, config@, now, outcome_view(r)),
    {
        proof {
            reveal_strlit("OK");
        }
        let ghost sv = self@;
        let ghost db0 = db@;
        match self {
            Cmd::Ping(p) => Ok(Resp::SimpleString(SimpleString(p.0))),
            Cmd::Echo(e) => Ok(Resp::SimpleString(SimpleString(e.0))),
            Cmd::SetValue(s) => {
                let expiry = match s.ttl_ms {
                    None => None,
                    Some(ms) => match now.checked_add(ms) {
                        Some(t) => Some(t),
                        None => {
                            return Err(CommandError::Overflow);
                        },
                    },
                };
                db.set(s.key, RedisValue { content: s.value, expiry }, now);
                let r = Ok(Resp::SimpleString(SimpleString(ascii_bytes("OK"))));
                assert(outcome_view(r) == Ok::<Reply, Failure>(Reply::Simple(bytes_of("OK"@))));
                assert(run_outcome(sv, db0, db@, config@, now, outcome_view(r)));
                r
            },
            Cmd::Get(g) => {
                let r = match db.get(g.key.as_slice(), now) {
                    Some(v) => Ok(Resp::BulkString(BulkString(v.content))),
                    None => Ok(Resp::Null(Null)),
                };
                assert(run_outcome(sv, db0, db@, config@, now, outcome_view(r)));
                r
            },
            Cmd::ConfigGet(c) => {
                let items = config_get(&c.keys, config, now);
                let r = Ok(Resp::Array(Array(items)));
                let ghost ks = choose|ks: Seq<Seq<u8>>|
                    sorted_unique_of(ks, lowered_all(byte_views(c.keys@))) && Array(items)@
                        == config_items(ks, config@, now, ks.len());
                assert(outcome_view(r) == Ok::<Reply, Failure>(
                    Reply::Array(config_items(ks, config@, now, ks.len())),
                ));
                assert(sv == CmdSpec::ConfigGet(byte_views(c.keys@)));
                assert(sorted_unique_of(ks, lowered_all(byte_views(c.keys@))));
                proof {
                    match sv {
                        CmdSpec::ConfigGet(kk) => {
                            assert(sorted_unique_of(ks, lowered_all(kk)));
                        },
                        _ => {},
                    }
                }
                r
            },
        }
    }
}

} // verus!
