//! What the server decides for each frame it receives, and the
//! configuration it starts with. The sockets, threads and clock are the
//! caller's.
use vstd::prelude::*;

use crate::bytes::{ascii_bytes, bytes_of};
use crate::commands::{cmd_of, message, run_outcome, Cmd, Failure};
use crate::resp::{
    byte_views, decimal, line_ok, malformed_frame_text, parse_client_bytes, parse_request,
    push_decimal, render, well_formed, Reply, Resp, SimpleError,
};
use crate::store::{RandomMap, RedisValue, Stored};

verus! {

/// The startup settings: the port to listen on, the directory of the
/// snapshot file and its name.
pub struct RedisArgs {
    pub port: u16,
    pub dir: Vec<u8>,
    pub dbfilename: Vec<u8>,
}

/// `ERR internal error`: the reply when a reply cannot be rendered.
pub open spec fn internal_error_text() -> Seq<u8> {
    bytes_of("ERR internal error"@)
}

/// The bytes of an error reply with this text; a text that holds a line
/// terminator gives the internal error instead.
pub open spec fn error_bytes(text: Seq<u8>) -> Seq<u8> {
    if line_ok(text) {
        render(Reply::Error(text))
    } else {
        render(Reply::Error(internal_error_text()))
    }
}

/// The bytes sent back for the outcome of a command.
pub open spec fn reply_bytes(out: Result<Reply, Failure>) -> Seq<u8> {
    match out {
        Ok(rep) => if well_formed(rep) {
            render(rep)
        } else {
            render(Reply::Error(internal_error_text()))
        },
        Err(f) => error_bytes(message(f)),
    }
}

/// The rendering of an error reply; see `error_bytes`.
fn render_error(e: SimpleError) -> (r: Vec<u8>)
    ensures
        r@ == error_bytes(e.0@),
{
    let ghost text = e.0@;
    match Resp::SimpleError(e).to_output() {
        Some(b) => b,
        None => {
            proof {
                reveal_strlit("ERR internal error");
            }
            let fallback = Resp::SimpleError(SimpleError(ascii_bytes("ERR internal error")));
            assert(line_ok(internal_error_text()));
            match fallback.to_output() {
                Some(b) => b,
                None => Vec::new(),
            }
        },
    }
}

/// Answers one frame at time `now` (milliseconds since the Unix epoch): a
/// malformed frame gets an error reply; a frame that names no valid command
/// gets the command's error; otherwise the command runs and its reply, or
/// its error, is rendered.
pub fn handle_frame(db: &mut RandomMap, config: &RandomMap, frame: &[u8], now: u64) -> (r: Vec<u8>)
    requires
        old(db).wf(),
        config.wf(),
    ensures
        final(db).wf(),
        match parse_request(frame@) {
            Some((items, k)) => if k == frame@.len() {
                match cmd_of(items) {
                    Err(f) => r@ == error_bytes(message(f)) && final(db)@ == old(db)@,
                    Ok(c) => exists|out: Result<Reply, Failure>|
                        #[trigger] run_outcome(c, old(db)@, final(db)@, config@, now, out) && r@
                            == reply_bytes(out),
                }
            } else {
                r@ == error_bytes(malformed_frame_text()) && final(db)@ == old(db)@
            },
            None => r@ == error_bytes(malformed_frame_text()) && final(db)@ == old(db)@,
        },
{
    proof {
        reveal_strlit("ERR internal error");
    }
    let items = match parse_client_bytes(frame) {
        Ok(items) => items,
        Err(e) => {
            return render_error(e);
        },
    };
    let cmd = match Cmd::from_args(items.as_slice()) {
        Ok(cmd) => cmd,
        Err(e) => {
            return render_error(e.to_reply());
        },
    };
    let ghost c = cmd@;
    let ghost db0 = db@;
    let result = cmd.run(db, config, now);
    let ghost out = crate::commands::outcome_view(result);
    let bytes = match result {
        Ok(resp) => match resp.to_output() {
            Some(b) => b,
            None => render_error(SimpleError(ascii_bytes("ERR internal error"))),
        },
        Err(e) => render_error(e.to_reply()),
    };
    proof {
        assert(line_ok(internal_error_text()));
        assert(run_outcome(c, db0, db@, config@, now, out));
    }
    bytes
}

/// The configuration that the settings give: `port`, `dir` and
/// `dbfilename`, none of which expires.
pub open spec fn config_of(port: u16, dir: Seq<u8>, dbfilename: Seq<u8>) -> Map<Seq<u8>, Stored> {
    Map::empty().insert(bytes_of("port"@), (decimal(port as nat), None)).insert(
        bytes_of("dir"@),
        (dir, None),
    ).insert(bytes_of("dbfilename"@), (dbfilename, None))
}

impl RedisArgs {
    /// The configuration store for these settings.
    pub fn populate_config_db(&self) -> (r: RandomMap)
        ensures
            r.wf(),
            r@ == config_of(self.port, self.dir@, self.dbfilename@),
    {
        proof {
            reveal_strlit("port");
            reveal_strlit("dir");
            reveal_strlit("dbfilename");
        }
        // None of these entries expires, so the time given to `set` is moot.
        let now: u64 = 0;
        let mut m = RandomMap::new();
        let mut port: Vec<u8> = Vec::new();
        push_decimal(&mut port, self.port as u64);
        assert(port@ =~= decimal(self.port as nat));
        m.set(ascii_bytes("port"), RedisValue { content: port, expiry: None }, now);
        m.set(
            ascii_bytes("dir"),
            RedisValue { content: crate::bytes::clone_bytes(&self.dir), expiry: None },
            now,
        );
        m.set(
            ascii_bytes("dbfilename"),
            RedisValue { content: crate::bytes::clone_bytes(&self.dbfilename), expiry: None },
            now,
        );
        m
    }
}

} // verus!
