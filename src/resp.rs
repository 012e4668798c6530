//! The wire protocol codec: reply values, their rendering, and the parsers
//! for requests and replies.
use vstd::prelude::*;

use crate::bytes::clone_bytes;

verus! {

/// The abstract value of a reply: what a `Resp` means, independent of how
/// its byte strings are stored.
pub enum Reply {
    Simple(Seq<u8>),
    Error(Seq<u8>),
    Int(i64),
    Bulk(Seq<u8>),
    Array(Seq<Reply>),
    Null,
}

/// A simple string reply: `+`, the payload, `\r\n`.
#[derive(Debug)]
pub struct SimpleString(pub Vec<u8>);

/// An error reply: `-`, the message, `\r\n`.
#[derive(Debug)]
pub struct SimpleError(pub Vec<u8>);

/// A bulk string: its length, then its bytes, which may be any bytes.
#[derive(Debug)]
pub struct BulkString(pub Vec<u8>);

/// An integer reply: `:`, the signed decimal, `\r\n`.
#[derive(Debug)]
pub struct Integer(pub i64);

/// The null reply.
#[derive(Debug)]
pub struct Null;

/// An array reply: its count, then its items.
#[derive(Debug)]
pub struct Array(pub Vec<Resp>);

/// A reply value, as the server produces it.
#[derive(Debug)]
pub enum Resp {
    SimpleString(SimpleString),
    SimpleError(SimpleError),
    BulkString(BulkString),
    Array(Array),
    Null(Null),
    Integer(Integer),
}

/// A value that can be put on the wire.
pub trait RespValue {
    /// What the value means as a reply.
    spec fn reply(&self) -> Reply;

    /// The wire form, or `None` when a simple string or an error holds a
    /// line terminator.
    fn to_output(&self) -> (r: Option<Vec<u8>>)
        ensures
            r is Some <==> well_formed(self.reply()),
            r matches Some(b) ==> b@ == render(self.reply()),
    ;
}

impl View for Resp {
    type V = Reply;

    open spec fn view(&self) -> Reply
        decreases self,
    {
        match self {
            Resp::SimpleString(s) => Reply::Simple(s.0@),
            Resp::SimpleError(s) => Reply::Error(s.0@),
            Resp::BulkString(s) => Reply::Bulk(s.0@),
            Resp::Integer(n) => Reply::Int(n.0),
            Resp::Null(_) => Reply::Null,
            Resp::Array(a) => Reply::Array(a.view()),
        }
    }
}

impl View for Array {
    type V = Seq<Reply>;

    open spec fn view(&self) -> Seq<Reply>
        decreases self,
    {
        Seq::new(
            self.0@.len(),
            |i: int|
                if 0 <= i < self.0@.len() {
                    self.0@[i].view()
                } else {
                    Reply::Null
                },
        )
    }
}


impl Resp {
    /// The tag byte that opens this value on the wire.
    pub fn first_byte(&self) -> (r: u8)
        ensures
            r == tag_of(self@),
    {
        match self {
            Resp::SimpleString(_) => 43,
            Resp::SimpleError(_) => 45,
            Resp::Integer(_) => 58,
            Resp::BulkString(_) => 36,
            Resp::Null(_) => 36,
            Resp::Array(_) => 42,
        }
    }
}

/// The tag byte of a rendered reply; `Null` goes out as a bulk string.
pub open spec fn tag_of(r: Reply) -> u8 {
    match r {
        Reply::Simple(_) => 43,
        Reply::Error(_) => 45,
        Reply::Int(_) => 58,
        Reply::Bulk(_) => 36,
        Reply::Null => 36,
        Reply::Array(_) => 42,
    }
}

pub open spec fn crlf() -> Seq<u8> {
    seq![13u8, 10u8]
}

pub open spec fn is_digit(b: u8) -> bool {
    48 <= b <= 57
}

/// The shortest decimal spelling of `n`.
pub open spec fn decimal(n: nat) -> Seq<u8>
    decreases n,
{
    if n < 10 {
        seq![(48 + n) as u8]
    } else {
        decimal(n / 10).push((48 + n % 10) as u8)
    }
}

/// Decimal spelling of a signed number, with a leading `-` when negative.
pub open spec fn signed_decimal(n: int) -> Seq<u8> {
    if n < 0 {
        seq![45u8] + decimal((-n) as nat)
    } else {
        decimal(n as nat)
    }
}

pub open spec fn all_digits(d: Seq<u8>) -> bool {
    forall|i: int| 0 <= i < d.len() ==> is_digit(#[trigger] d[i])
}

pub open spec fn digits_value(d: Seq<u8>) -> nat
    decreases d.len(),
{
    if d.len() == 0 {
        0
    } else {
        digits_value(d.drop_last()) * 10 + (d.last() - 48) as nat
    }
}

/// A non-negative decimal: one or more ASCII digits.
pub open spec fn parse_unsigned(d: Seq<u8>) -> Option<nat> {
    if d.len() > 0 && all_digits(d) {
        Some(digits_value(d))
    } else {
        None
    }
}

/// A decimal with an optional leading `-`.
pub open spec fn parse_signed(d: Seq<u8>) -> Option<int> {
    if d.len() > 0 && d[0] == 45 {
        match parse_unsigned(d.skip(1)) {
            Some(v) => Some(-v),
            None => None,
        }
    } else {
        match parse_unsigned(d) {
            Some(v) => Some(v as int),
            None => None,
        }
    }
}

/// A line payload holds neither `\r` nor `\n`.
pub open spec fn line_ok(s: Seq<u8>) -> bool {
    forall|i: int| 0 <= i < s.len() ==> #[trigger] s[i] != 13 && s[i] != 10
}

/// The index of the first `\r` at or after `i`, or the length of `s`.
pub open spec fn cr_index(s: Seq<u8>, i: nat) -> nat
    decreases s.len() - i,
{
    if i >= s.len() {
        s.len()
    } else if s[i as int] == 13 {
        i
    } else {
        cr_index(s, i + 1)
    }
}

/// Splits the first line of an element: the bytes after the tag byte up to
/// `\r\n`, and the number of bytes that the line takes with its tag and
/// terminator.
pub open spec fn split_line(s: Seq<u8>) -> Option<(Seq<u8>, nat)> {
    let j = cr_index(s, 1);
    if 1 <= j && j + 1 < s.len() && s[(j + 1) as int] == 10 && line_ok(s.subrange(1, j as int)) {
        Some((s.subrange(1, j as int), j + 2))
    } else {
        None
    }
}

pub open spec fn fits_i64(v: int) -> bool {
    i64::MIN <= v <= i64::MAX
}

/// Parses one reply from the front of `s`: the value and the number of
/// bytes it takes.
pub open spec fn parse_reply(s: Seq<u8>) -> Option<(Reply, nat)>
    decreases s.len(), 0nat,
{
    if s.len() == 0 {
        None
    } else {
        match split_line(s) {
            None => None,
            Some((line, k)) => {
                let tag = s[0];
                if tag == 43 {
                    Some((Reply::Simple(line), k))
                } else if tag == 45 {
                    Some((Reply::Error(line), k))
                } else if tag == 58 {
                    match parse_signed(line) {
                        Some(v) => if fits_i64(v) {
                            Some((Reply::Int(v as i64), k))
                        } else {
                            None
                        },
                        None => None,
                    }
                } else if tag == 95 {
                    if line.len() == 0 {
                        Some((Reply::Null, k))
                    } else {
                        None
                    }
                } else if tag == 36 {
                    if line == seq![45u8, 49u8] {
                        Some((Reply::Null, k))
                    } else {
                        match parse_unsigned(line) {
                            Some(n) => if k + n + 2 <= s.len() && s[(k + n) as int] == 13 && s[(k
                                + n + 1) as int] == 10 {
                                Some((Reply::Bulk(s.subrange(k as int, (k + n) as int)), k + n + 2))
                            } else {
                                None
                            },
                            None => None,
                        }
                    }
                } else if tag == 42 {
                    match parse_unsigned(line) {
                        Some(c) => if 0 < k <= s.len() {
                            match parse_items(s.skip(k as int), c) {
                                Some((xs, m)) => Some((Reply::Array(xs), (k + m) as nat)),
                                None => None,
                            }
                        } else {
                            None
                        },
                        None => None,
                    }
                } else {
                    None
                }
            },
        }
    }
}

/// Parses `c` replies one after another from the front of `t`.
pub open spec fn parse_items(t: Seq<u8>, c: nat) -> Option<(Seq<Reply>, nat)>
    decreases t.len(), 1nat,
{
    if c == 0 {
        Some((Seq::empty(), 0))
    } else {
        match parse_reply(t) {
            None => None,
            Some((r, m)) => if 0 < m <= t.len() {
                match parse_items(t.skip(m as int), (c - 1) as nat) {
                    Some((rs, m2)) => Some((seq![r] + rs, m + m2)),
                    None => None,
                }
            } else {
                None
            },
        }
    }
}

/// A reply that can be rendered: simple strings and errors hold no line
/// terminator, at any depth.
pub open spec fn well_formed(r: Reply) -> bool
    decreases r,
{
    match r {
        Reply::Simple(s) => line_ok(s),
        Reply::Error(s) => line_ok(s),
        Reply::Array(xs) => forall|i: int| 0 <= i < xs.len() ==> well_formed(#[trigger] xs[i]),
        _ => true,
    }
}

/// The wire form of a reply. `Null` takes the legacy null bulk string form
/// `$-1\r\n`.
pub open spec fn render(r: Reply) -> Seq<u8>
    decreases r, 0nat,
{
    match r {
        Reply::Simple(s) => seq![43u8] + s + crlf(),
        Reply::Error(s) => seq![45u8] + s + crlf(),
        Reply::Int(n) => seq![58u8] + signed_decimal(n as int) + crlf(),
        Reply::Bulk(b) => seq![36u8] + decimal(b.len()) + crlf() + b + crlf(),
        Reply::Null => seq![36u8, 45u8, 49u8, 13u8, 10u8],
        Reply::Array(xs) => seq![42u8] + decimal(xs.len()) + crlf() + render_upto(xs, xs.len()),
    }
}

/// The renderings of the first `n` items, one after another.
pub open spec fn render_upto(xs: Seq<Reply>, n: nat) -> Seq<u8>
    decreases xs, n,
{
    if n == 0 || n > xs.len() {
        Seq::empty()
    } else {
        render_upto(xs, (n - 1) as nat) + render(xs[n - 1 as int])
    }
}


proof fn lemma_decimal(n: nat)
    ensures
        decimal(n).len() > 0,
        all_digits(decimal(n)),
        line_ok(decimal(n)),
        digits_value(decimal(n)) == n,
    decreases n,
{
    if n >= 10 {
        lemma_decimal(n / 10);
        let d = decimal(n);
        assert(d.drop_last() =~= decimal(n / 10));
        assert(all_digits(d));
        assert(d.last() == (48 + n % 10) as u8);
        assert((d.last() - 48) as nat == n % 10);
        assert(n == (n / 10) * 10 + n % 10);
        assert(digits_value(d) == digits_value(decimal(n / 10)) * 10 + n % 10);
    } else {
        let d = decimal(n);
        assert(d.drop_last() =~= Seq::<u8>::empty());
        assert(digits_value(d.drop_last()) == 0);
        assert(d.last() == (48 + n) as u8);
        assert(digits_value(d) == n);
    }
}

proof fn lemma_signed_decimal(n: int)
    ensures
        parse_signed(signed_decimal(n)) == Some(n),
        line_ok(signed_decimal(n)),
{
    if n < 0 {
        lemma_decimal((-n) as nat);
        let d = signed_decimal(n);
        assert(d.skip(1) =~= decimal((-n) as nat));
    } else {
        lemma_decimal(n as nat);
        assert(is_digit(decimal(n as nat)[0]));
    }
}

proof fn lemma_cr_index(s: Seq<u8>, i: nat, j: nat)
    requires
        i <= j < s.len(),
        s[j as int] == 13,
        forall|k: int| i <= k < j ==> s[k] != 13,
    ensures
        cr_index(s, i) == j,
    decreases j - i,
{
    if i < j {
        lemma_cr_index(s, i + 1, j);
    }
}

proof fn lemma_split_line(tag: u8, line: Seq<u8>, rest: Seq<u8>)
    requires
        line_ok(line),
    ensures
        split_line(seq![tag] + line + crlf() + rest) == Some((line, line.len() + 3)),
{
    let s = seq![tag] + line + crlf() + rest;
    let j = line.len() + 1;
    assert forall|k: int| 1 <= k < j implies s[k] != 13 by {
        assert(s[k] == line[k - 1]);
    }
    lemma_cr_index(s, 1, j);
    assert(s.subrange(1, j as int) =~= line);
}

pub(crate) proof fn lemma_render_upto_front(ys: Seq<Reply>, n: nat)
    requires
        1 <= n <= ys.len(),
    ensures
        render_upto(ys, n) == render(ys[0]) + render_upto(ys.skip(1), (n - 1) as nat),
    decreases n,
{
    if n > 1 {
        lemma_render_upto_front(ys, (n - 1) as nat);
        assert(ys.skip(1)[n - 2] == ys[n - 1]);
        assert(render_upto(ys, n) =~= render(ys[0]) + render_upto(ys.skip(1), (n - 1) as nat));
    } else {
        assert(render_upto(ys, 0) =~= Seq::<u8>::empty());
        assert(render_upto(ys, 1) =~= render(ys[0]));
        assert(render_upto(ys.skip(1), 0) =~= Seq::<u8>::empty());
        assert(render(ys[0]) + Seq::<u8>::empty() =~= render(ys[0]));
    }
}

/// Every well-formed reply, once rendered, parses back to itself, whatever
/// bytes follow it; it takes exactly the rendered bytes.
pub proof fn lemma_parse_render(r: Reply, rest: Seq<u8>)
    requires
        well_formed(r),
    ensures
        parse_reply(render(r) + rest) == Some((r, render(r).len())),
    decreases r, 0nat,
{
    let s = render(r) + rest;
    match r {
        Reply::Simple(p) => {
            assert(s =~= seq![43u8] + p + crlf() + rest);
            lemma_split_line(43, p, rest);
        },
        Reply::Error(p) => {
            assert(s =~= seq![45u8] + p + crlf() + rest);
            lemma_split_line(45, p, rest);
        },
        Reply::Int(n) => {
            lemma_signed_decimal(n as int);
            assert(s =~= seq![58u8] + signed_decimal(n as int) + crlf() + rest);
            lemma_split_line(58, signed_decimal(n as int), rest);
        },
        Reply::Null => {
            assert(s =~= seq![36u8] + seq![45u8, 49u8] + crlf() + rest);
            assert(line_ok(seq![45u8, 49u8]));
            lemma_split_line(36, seq![45u8, 49u8], rest);
        },
        Reply::Bulk(b) => {
            let d = decimal(b.len());
            lemma_decimal(b.len());
            assert(s =~= seq![36u8] + d + crlf() + (b + crlf() + rest));
            lemma_split_line(36, d, b + crlf() + rest);
            assert(is_digit(d[0]));
            assert(d != seq![45u8, 49u8]);
            let k = d.len() + 3;
            assert(s.subrange(k as int, k + b.len() as int) =~= b);
        },
        Reply::Array(xs) => {
            let d = decimal(xs.len());
            lemma_decimal(xs.len());
            let body = render_upto(xs, xs.len());
            assert(s =~= seq![42u8] + d + crlf() + (body + rest));
            lemma_split_line(42, d, body + rest);
            let k = d.len() + 3;
            assert(s.skip(k as int) =~= body + rest);
            lemma_parse_render_items(xs, 0, rest);
            assert(xs.skip(0) =~= xs);
        },
    }
}

proof fn lemma_parse_render_items(xs: Seq<Reply>, i: nat, rest: Seq<u8>)
    requires
        i <= xs.len(),
        forall|j: int| 0 <= j < xs.len() ==> well_formed(#[trigger] xs[j]),
    ensures
        parse_items(render_upto(xs.skip(i as int), (xs.len() - i) as nat) + rest, (xs.len() - i) as nat)
            == Some((xs.skip(i as int), render_upto(xs.skip(i as int), (xs.len() - i) as nat).len())),
    decreases xs, xs.len() - i,
{
    let ys = xs.skip(i as int);
    let n = (xs.len() - i) as nat;
    if n == 0 {
        assert(render_upto(ys, 0) + rest =~= rest);
        assert(ys =~= Seq::<Reply>::empty());
    } else {
        lemma_render_upto_front(ys, n);
        assert(ys.skip(1) =~= xs.skip(i + 1 as int));
        let head = render(xs[i as int]);
        let tail = render_upto(xs.skip(i + 1 as int), (n - 1) as nat);
        let t = render_upto(ys, n) + rest;
        assert(t =~= head + (tail + rest));
        lemma_parse_render(xs[i as int], tail + rest);
        lemma_parse_render_items(xs, i + 1, rest);
        assert(t.skip(head.len() as int) =~= tail + rest);
        assert(seq![xs[i as int]] + xs.skip(i + 1 as int) =~= ys);
    }
}


/// Appends the decimal spelling of `n`.
pub fn push_decimal(out: &mut Vec<u8>, n: u64)
    ensures
        final(out)@ == old(out)@ + decimal(n as nat),
    decreases n,
{
    if n >= 10 {
        push_decimal(out, n / 10);
    }
    out.push((48 + n % 10) as u8);
    proof {
        if n >= 10 {
            assert(final(out)@ =~= old(out)@ + decimal(n as nat));
        } else {
            assert(final(out)@ =~= old(out)@ + decimal(n as nat));
        }
    }
}

fn push_crlf(out: &mut Vec<u8>)
    ensures
        final(out)@ == old(out)@ + crlf(),
{
    out.push(13);
    out.push(10);
    assert(final(out)@ =~= old(out)@ + crlf());
}

/// Appends `tag`, the payload and `\r\n`, unless the payload holds a line
/// terminator; then it reports `false`.
fn write_line(out: &mut Vec<u8>, tag: u8, payload: &Vec<u8>) -> (ok: bool)
    ensures
        ok == line_ok(payload@),
        ok ==> final(out)@ == old(out)@ + (seq![tag] + payload@ + crlf()),
{
    let mut i: usize = 0;
    while i < payload.len()
        invariant
            i <= payload.len(),
            forall|k: int| 0 <= k < i ==> #[trigger] payload@[k] != 13 && payload@[k] != 10,
            *out == *old(out),
        decreases payload.len() - i,
    {
        if payload[i] == 13 || payload[i] == 10 {
            return false;
        }
        i += 1;
    }
    out.push(tag);
    let mut j: usize = 0;
    while j < payload.len()
        invariant
            j <= payload.len(),
            out@ == old(out)@ + seq![tag] + payload@.take(j as int),
        decreases payload.len() - j,
    {
        out.push(payload[j]);
        assert(payload@.take(j + 1 as int) =~= payload@.take(j as int).push(payload@[j as int]));
        j += 1;
    }
    push_crlf(out);
    assert(payload@.take(j as int) =~= payload@);
    assert(out@ =~= old(out)@ + (seq![tag] + payload@ + crlf()));
    true
}

fn push_bytes(out: &mut Vec<u8>, b: &Vec<u8>)
    ensures
        final(out)@ == old(out)@ + b@,
{
    let mut j: usize = 0;
    while j < b.len()
        invariant
            j <= b.len(),
            out@ == old(out)@ + b@.take(j as int),
        decreases b.len() - j,
    {
        out.push(b[j]);
        assert(b@.take(j + 1 as int) =~= b@.take(j as int).push(b@[j as int]));
        j += 1;
    }
    assert(b@.take(j as int) =~= b@);
}

fn write_int(out: &mut Vec<u8>, n: i64)
    ensures
        final(out)@ == old(out)@ + render(Reply::Int(n)),
{
    out.push(58);
    if n < 0 {
        out.push(45);
        let m: u64 = (0 - (n as i128)) as u64;
        push_decimal(out, m);
    } else {
        push_decimal(out, n as u64);
    }
    push_crlf(out);
    assert(final(out)@ =~= old(out)@ + render(Reply::Int(n)));
}

fn write_bulk(out: &mut Vec<u8>, b: &Vec<u8>)
    ensures
        final(out)@ == old(out)@ + render(Reply::Bulk(b@)),
{
    out.push(36);
    push_decimal(out, b.len() as u64);
    push_crlf(out);
    push_bytes(out, b);
    push_crlf(out);
    assert(final(out)@ =~= old(out)@ + render(Reply::Bulk(b@)));
}

fn write_null(out: &mut Vec<u8>)
    ensures
        final(out)@ == old(out)@ + render(Reply::Null),
{
    out.push(36);
    out.push(45);
    out.push(49);
    push_crlf(out);
    assert(final(out)@ =~= old(out)@ + render(Reply::Null));
}

impl Array {
    /// Appends the rendering of the array; `false` when some item cannot be
    /// rendered.
    pub fn write_to(&self, out: &mut Vec<u8>) -> (ok: bool)
        ensures
            ok == well_formed(Reply::Array(self@)),
            ok ==> final(out)@ == old(out)@ + render(Reply::Array(self@)),
        decreases self, 0nat,
    {
        let n = self.0.len();
        out.push(42);
        push_decimal(out, n as u64);
        push_crlf(out);
        let ghost start = out@;
        let ghost items = self@;
        let mut i: usize = 0;
        while i < n
            invariant
                n == self.0@.len(),
                items == self@,
                i <= n,
                out@ == start + render_upto(items, i as nat),
                forall|j: int| 0 <= j < i ==> well_formed(#[trigger] items[j]),
            decreases n - i,
        {
            let ok = self.0[i].write_to(out);
            assert(items[i as int] == self.0@[i as int]@);
            if !ok {
                assert(!well_formed(items[i as int]));
                assert(0 <= i < items.len());
                proof {
                    lemma_well_formed_array(items);
                }
                return false;
            }
            assert(render_upto(items, (i + 1) as nat) == render_upto(items, i as nat) + render(
                items[i as int],
            ));
            assert(out@ =~= start + render_upto(items, (i + 1) as nat));
            i += 1;
        }
        assert(out@ =~= old(out)@ + render(Reply::Array(self@)));
        proof {
            lemma_well_formed_array(items);
        }
        true
    }
}

impl Resp {
    /// Appends the rendering of the value; `false` when a simple string or an
    /// error, at any depth, holds a line terminator.
    pub fn write_to(&self, out: &mut Vec<u8>) -> (ok: bool)
        ensures
            ok == well_formed(self@),
            ok ==> final(out)@ == old(out)@ + render(self@),
        decreases self, 1nat,
    {
        match self {
            Resp::SimpleString(s) => {
                let ok = write_line(out, 43, &s.0);
                proof {
                    if ok {
                        assert(final(out)@ =~= old(out)@ + render(self@));
                    }
                }
                ok
            },
            Resp::SimpleError(s) => {
                let ok = write_line(out, 45, &s.0);
                proof {
                    if ok {
                        assert(final(out)@ =~= old(out)@ + render(self@));
                    }
                }
                ok
            },
            Resp::BulkString(b) => {
                write_bulk(out, &b.0);
                true
            },
            Resp::Integer(n) => {
                write_int(out, n.0);
                true
            },
            Resp::Null(_) => {
                write_null(out);
                true
            },
            Resp::Array(a) => a.write_to(out),
        }
    }

    /// The wire form of the value, or `None` when a simple string or an
    /// error holds a line terminator.
    pub fn to_output(&self) -> (r: Option<Vec<u8>>)
        ensures
            r is Some <==> well_formed(self@),
            r is Some ==> r->0@ == render(self@),
    {
        let mut out: Vec<u8> = Vec::new();
        if self.write_to(&mut out) {
            assert(out@ =~= render(self@));
            Some(out)
        } else {
            None
        }
    }
}


proof fn lemma_well_formed_array(xs: Seq<Reply>)
    ensures
        well_formed(Reply::Array(xs)) <==> forall|j: int|
            0 <= j < xs.len() ==> well_formed(#[trigger] xs[j]),
{
    let r = Reply::Array(xs);
    match r {
        Reply::Array(ys) => {
            assert(ys == xs);
        },
        _ => {},
    }
}


pub(crate) proof fn lemma_digits_value_prefix(d: Seq<u8>, k: int)
    requires
        0 <= k <= d.len(),
    ensures
        digits_value(d.take(k)) <= digits_value(d),
    decreases d.len(),
{
    if k < d.len() {
        lemma_digits_value_prefix(d.drop_last(), k);
        assert(d.drop_last().take(k) =~= d.take(k));
    } else {
        assert(d.take(k) =~= d);
    }
}

/// Finds the end of the line that starts with the tag byte at `pos`: the
/// number of bytes that the tag, the line and its `\r\n` take.
fn scan_line(buf: &[u8], pos: usize) -> (r: Option<usize>)
    requires
        pos < buf@.len(),
    ensures
        match split_line(buf@.skip(pos as int)) {
            Some((_, k)) => r == Some(k as usize),
            None => r is None,
        },
{
    let ghost t = buf@.skip(pos as int);
    let n = buf.len();
    let mut i: usize = pos + 1;
    while i < n && buf[i] != 13
        invariant
            pos < i <= buf@.len(),
            n == buf@.len(),
            t == buf@.skip(pos as int),
            cr_index(t, 1) == cr_index(t, (i - pos) as nat),
            forall|k: int| 1 <= k < i - pos ==> #[trigger] t[k] != 13 && t[k] != 10,
        decreases buf@.len() - i,
    {
        if buf[i] == 10 {
            proof {
                let j = cr_index(t, 1);
                lemma_cr_index_ge(t, (i - pos + 1) as nat);
                assert(t[i - pos] == 10);
                assert(j >= i - pos + 1);
                if j <= t.len() {
                    assert(t.subrange(1, j as int)[(i - pos - 1) as int] == 10);
                }
            }
            return None;
        }
        i += 1;
    }
    let ghost j = (i - pos) as nat;
    assert(cr_index(t, j) == j);
    if i < n && n - i > 1 && buf[i + 1] == 10 {
        assert(line_ok(t.subrange(1, j as int)));
        Some(i - pos + 2)
    } else {
        None
    }
}

pub(crate) proof fn lemma_cr_index_ge(s: Seq<u8>, i: nat)
    ensures
        cr_index(s, i) >= i || cr_index(s, i) == s.len(),
    decreases s.len() - i,
{
    if i < s.len() && s[i as int] != 13 {
        lemma_cr_index_ge(s, i + 1);
    }
}

/// Reads the decimal in `buf[start..end]`, when it is one and fits in `u64`.
pub(crate) fn parse_digits(buf: &[u8], start: usize, end: usize) -> (r: Option<u64>)
    requires
        start <= end <= buf@.len(),
    ensures
        match parse_unsigned(buf@.subrange(start as int, end as int)) {
            Some(v) => if v <= u64::MAX {
                r == Some(v as u64)
            } else {
                r is None
            },
            None => r is None,
        },
{
    let ghost d = buf@.subrange(start as int, end as int);
    if start == end {
        return None;
    }
    let mut acc: u64 = 0;
    let mut i: usize = start;
    while i < end
        invariant
            start <= i <= end <= buf@.len(),
            d == buf@.subrange(start as int, end as int),
            all_digits(d.take(i - start)),
            acc as nat == digits_value(d.take(i - start)),
        decreases end - i,
    {
        let b = buf[i];
        assert(d[i - start] == b);
        if b < 48 || b > 57 {
            assert(!all_digits(d));
            return None;
        }
        let digit = (b - 48) as u64;
        assert(d.take(i - start + 1).drop_last() =~= d.take(i - start));
        assert(digits_value(d.take(i - start + 1)) == digits_value(d.take(i - start)) * 10
            + digit);
        if acc > (u64::MAX - digit) / 10 {
            proof {
                lemma_digits_value_prefix(d, i - start + 1);
                assert(acc * 10 + digit > u64::MAX) by (nonlinear_arith)
                    requires
                        acc > (u64::MAX - digit) / 10,
                        digit <= 9,
                ;
            }
            return None;
        }
        assert(acc * 10 + digit <= u64::MAX) by (nonlinear_arith)
            requires
                acc <= (u64::MAX - digit) / 10,
                digit <= 9,
        ;
        acc = acc * 10 + digit;
        i += 1;
        assert(all_digits(d.take(i - start)));
    }
    assert(d.take(i - start) =~= d);
    Some(acc)
}


proof fn lemma_parse_items_len(t: Seq<u8>, c: nat)
    ensures
        parse_items(t, c) matches Some((xs, m)) ==> c <= m <= t.len() && xs.len() == c,
    decreases t.len(), c,
{
    if c > 0 {
        if let Some((r, m)) = parse_reply(t) {
            if 0 < m <= t.len() {
                lemma_parse_items_len(t.skip(m as int), (c - 1) as nat);
            }
        }
    }
}

/// A copy of `buf[a..b]`.
fn copy_range(buf: &[u8], a: usize, b: usize) -> (r: Vec<u8>)
    requires
        a <= b <= buf@.len(),
    ensures
        r@ == buf@.subrange(a as int, b as int),
{
    let mut out: Vec<u8> = Vec::new();
    let mut i: usize = a;
    while i < b
        invariant
            a <= i <= b <= buf@.len(),
            out@ == buf@.subrange(a as int, i as int),
        decreases b - i,
    {
        out.push(buf[i]);
        assert(buf@.subrange(a as int, i + 1 as int) =~= buf@.subrange(a as int, i as int).push(
            buf@[i as int],
        ));
        i += 1;
    }
    out
}

/// A copy of a byte slice.
pub(crate) fn copy_slice(buf: &[u8]) -> (r: Vec<u8>)
    ensures
        r@ == buf@,
{
    let r = copy_range(buf, 0, buf.len());
    assert(buf@.subrange(0, buf@.len() as int) =~= buf@);
    r
}

/// Parses one reply that starts at `pos`: the value and the position just
/// past it.
#[verifier::rlimit(60)]
fn parse_at(buf: &[u8], pos: usize) -> (r: Option<(Resp, usize)>)
    requires
        pos <= buf@.len(),
    ensures
        match parse_reply(buf@.skip(pos as int)) {
            Some((v, k)) => r matches Some((x, e)) && x@ == v && e == pos + k,
            None => r is None,
        },
    decreases buf@.len() - pos,
{
    let ghost t = buf@.skip(pos as int);
    let n = buf.len();
    if pos >= n {
        return None;
    }
    let k = match scan_line(buf, pos) {
        None => {
            return None;
        },
        Some(k) => k,
    };
    let ls = pos + 1;
    let le = pos + k - 2;
    let ghost line = t.subrange(1, k - 2);
    assert(line =~= buf@.subrange(ls as int, le as int));
    let tag = buf[pos];
    if tag == 43 {
        Some((Resp::SimpleString(SimpleString(copy_range(buf, ls, le))), pos + k))
    } else if tag == 45 {
        Some((Resp::SimpleError(SimpleError(copy_range(buf, ls, le))), pos + k))
    } else if tag == 58 {
        if le > ls && buf[ls] == 45 {
            assert(line.skip(1) =~= buf@.subrange(ls + 1, le as int));
            match parse_digits(buf, ls + 1, le) {
                Some(v) => {
                    if v <= 9223372036854775808 {
                        let x: i64 = (0 - (v as i128)) as i64;
                        Some((Resp::Integer(Integer(x)), pos + k))
                    } else {
                        None
                    }
                },
                None => None,
            }
        } else {
            match parse_digits(buf, ls, le) {
                Some(v) => {
                    if v <= 9223372036854775807 {
                        Some((Resp::Integer(Integer(v as i64)), pos + k))
                    } else {
                        None
                    }
                },
                None => None,
            }
        }
    } else if tag == 95 {
        if le == ls {
            Some((Resp::Null(Null), pos + k))
        } else {
            None
        }
    } else if tag == 36 {
        if le - ls == 2 && buf[ls] == 45 && buf[ls + 1] == 49 {
            assert(line =~= seq![45u8, 49u8]);
            Some((Resp::Null(Null), pos + k))
        } else {
            assert(line != seq![45u8, 49u8]) by {
                if line == seq![45u8, 49u8] {
                    assert(line.len() == 2 && line[0] == 45 && line[1] == 49);
                }
            }
            match parse_digits(buf, ls, le) {
                Some(v) => {
                    let start = pos + k;
                    let rem = n - start;
                    if rem < 2 || v > (rem - 2) as u64 {
                        None
                    } else {
                        let stop = start + v as usize;
                        if buf[stop] == 13 && buf[stop + 1] == 10 {
                            let payload = copy_range(buf, start, stop);
                            assert(payload@ =~= t.subrange(k as int, k + v));
                            Some((Resp::BulkString(BulkString(payload)), stop + 2))
                        } else {
                            None
                        }
                    }
                },
                None => None,
            }
        }
    } else if tag == 42 {
        match parse_digits(buf, ls, le) {
            Some(c) => {
                let mut items: Vec<Resp> = Vec::new();
                let mut cur = pos + k;
                let mut idx: u64 = 0;
                let ghost done: Seq<Reply> = Seq::empty();
                assert(buf@.skip(cur as int) =~= t.skip(k as int));
                assert(parse_reply(t) == match parse_items(t.skip(k as int), c as nat) {
                    Some((xs, m)) => Some((Reply::Array(xs), (k + m) as nat)),
                    None => None,
                });
                while idx < c
                    invariant
                        pos + k <= cur <= n,
                        n == buf@.len(),
                        k >= 2,
                        t == buf@.skip(pos as int),
                        parse_reply(t) == match parse_items(t.skip(k as int), c as nat) {
                            Some((xs, m)) => Some((Reply::Array(xs), (k + m) as nat)),
                            None => None,
                        },
                        idx <= c,
                        items@.len() == idx,
                        done.len() == idx,
                        forall|j: int| 0 <= j < idx ==> (#[trigger] items@[j])@ == done[j],
                        parse_items(t.skip(k as int), c as nat) == match parse_items(
                            buf@.skip(cur as int),
                            (c - idx) as nat,
                        ) {
                            Some((rs, m)) => Some((done + rs, ((cur - pos - k) + m) as nat)),
                            None => None,
                        },
                    decreases c - idx,
                {
                    let ghost sc = buf@.skip(cur as int);
                    match parse_at(buf, cur) {
                        None => {
                            assert(parse_items(sc, (c - idx) as nat) is None);
                            return None;
                        },
                        Some((r, e)) => {
                            if e <= cur || e > n {
                                assert(parse_items(sc, (c - idx) as nat) is None);
                                return None;
                            }
                            let ghost m = (e - cur) as nat;
                            assert(sc.skip(m as int) =~= buf@.skip(e as int));
                            proof {
                                let v = r@;
                                match parse_items(buf@.skip(e as int), (c - idx - 1) as nat) {
                                    Some((rs, m2)) => {
                                        assert(done.push(v) + rs =~= done + (seq![v] + rs));
                                    },
                                    None => {},
                                }
                            }
                            items.push(r);
                            proof {
                                done = done.push(items@[idx as int]@);
                            }
                            cur = e;
                            idx += 1;
                        },
                    }
                }
                assert(done + Seq::<Reply>::empty() =~= done);
                let a = Array(items);
                assert(a@ =~= done);
                Some((Resp::Array(a), cur))
            },
            None => {
                proof {
                    if let Some(c) = parse_unsigned(line) {
                        lemma_parse_items_len(t.skip(k as int), c);
                    }
                }
                None
            },
        }
    } else {
        None
    }
}

impl Resp {
    /// Parses one reply from the front of `buf`: the value and the number of
    /// bytes it takes.
    pub fn to_resp(buf: &[u8]) -> (r: Option<(Resp, usize)>)
        ensures
            match parse_reply(buf@) {
                Some((v, k)) => r matches Some((x, e)) && x@ == v && e == k,
                None => r is None,
            },
    {
        assert(buf@.skip(0) =~= buf@);
        parse_at(buf, 0)
    }
}


/// Every item of a reply array is a bulk string.
pub open spec fn all_bulk(xs: Seq<Reply>) -> bool {
    forall|i: int| 0 <= i < xs.len() ==> (#[trigger] xs[i]) is Bulk
}

/// The payloads of an array of bulk strings.
pub open spec fn payloads(xs: Seq<Reply>) -> Seq<Seq<u8>> {
    Seq::new(
        xs.len(),
        |i: int|
            match xs[i] {
                Reply::Bulk(b) => b,
                _ => Seq::empty(),
            },
    )
}

/// The byte strings wrapped as bulk strings.
pub open spec fn as_bulks(items: Seq<Seq<u8>>) -> Seq<Reply> {
    Seq::new(items.len(), |i: int| Reply::Bulk(items[i]))
}

/// The contents of a list of byte vectors.
pub open spec fn byte_views(v: Seq<Vec<u8>>) -> Seq<Seq<u8>> {
    Seq::new(v.len(), |i: int| v[i]@)
}

/// A request frame at the front of `s`: an array whose items are all bulk
/// strings. Gives the payloads and the number of bytes the frame takes.
pub open spec fn parse_request(s: Seq<u8>) -> Option<(Seq<Seq<u8>>, nat)> {
    match parse_reply(s) {
        Some((Reply::Array(xs), n)) => if all_bulk(xs) {
            Some((payloads(xs), n))
        } else {
            None
        },
        _ => None,
    }
}

/// The wire form of a request: an array of bulk strings.
pub open spec fn render_request(items: Seq<Seq<u8>>) -> Seq<u8> {
    render(Reply::Array(as_bulks(items)))
}

/// Any array of bulk strings, rendered, parses back to the same byte
/// strings and takes the whole rendering; rendering those again gives the
/// same bytes.
pub proof fn lemma_request_round_trip(items: Seq<Seq<u8>>)
    ensures
        parse_request(render_request(items)) == Some((items, render_request(items).len())),
        parse_request(render_request(items)) matches Some((ys, _)) && render_request(ys) == render_request(
            items,
        ),
{
    let xs = as_bulks(items);
    lemma_well_formed_array(xs);
    let s = render_request(items);
    lemma_parse_render(Reply::Array(xs), Seq::empty());
    assert(s + Seq::<u8>::empty() =~= s);
    assert(payloads(xs) =~= items);
}

/// Parses the request frame at the front of `buf`: its byte strings and the
/// number of bytes it takes.
pub fn parse_request_prefix(buf: &[u8]) -> (r: Option<(Vec<Vec<u8>>, usize)>)
    ensures
        match parse_request(buf@) {
            Some((xs, k)) => r matches Some((v, e)) && byte_views(v@) == xs && e == k,
            None => r is None,
        },
{
    match Resp::to_resp(buf) {
        Some((Resp::Array(a), k)) => {
            let ghost xs = a@;
            let mut out: Vec<Vec<u8>> = Vec::new();
            let mut i: usize = 0;
            while i < a.0.len()
                invariant
                    xs == a@,
                    parse_reply(buf@) == Some((Reply::Array(xs), k as nat)),
                    i <= a.0@.len(),
                    out@.len() == i,
                    forall|j: int| 0 <= j < i ==> (#[trigger] xs[j]) is Bulk,
                    forall|j: int| 0 <= j < i ==> (#[trigger] out@[j])@ == payloads(xs)[j],
                decreases a.0@.len() - i,
            {
                assert(xs[i as int] == a.0@[i as int]@);
                match &a.0[i] {
                    Resp::BulkString(b) => {
                        out.push(clone_bytes(&b.0));
                    },
                    _ => {
                        assert(!(xs[i as int] is Bulk));
                        assert(!all_bulk(xs));
                        return None;
                    },
                }
                i += 1;
            }
            assert(byte_views(out@) =~= payloads(xs));
            Some((out, k))
        },
        _ => None,
    }
}

/// Parses a buffer that holds exactly one request frame: an array of bulk
/// strings. Anything else is a malformed frame.
pub fn parse_client_bytes(buf: &[u8]) -> (r: Result<Vec<Vec<u8>>, SimpleError>)
    ensures
        match parse_request(buf@) {
            Some((xs, k)) => if k == buf@.len() {
                r matches Ok(v) && byte_views(v@) == xs
            } else {
                r is Err
            },
            None => r is Err,
        },
        r matches Err(e) ==> e.0@ == malformed_frame_text(),
{
    match parse_request_prefix(buf) {
        Some((v, e)) => {
            if e == buf.len() {
                Ok(v)
            } else {
                Err(malformed_frame())
            }
        },
        None => Err(malformed_frame()),
    }
}

/// The error reply for a request that is not one array of bulk strings.
pub fn malformed_frame() -> (r: SimpleError)
    ensures
        r.0@ == malformed_frame_text(),
{
    SimpleError(
        vec![69u8, 82, 82, 32, 109, 97, 108, 102, 111, 114, 109, 101, 100, 32, 102, 114, 97, 109, 101],
    )
}

/// `ERR malformed frame`
pub open spec fn malformed_frame_text() -> Seq<u8> {
    seq![69u8, 82, 82, 32, 109, 97, 108, 102, 111, 114, 109, 101, 100, 32, 102, 114, 97, 109, 101]
}


impl RespValue for SimpleString {
    open spec fn reply(&self) -> Reply {
        Reply::Simple(self.0@)
    }

    fn to_output(&self) -> (r: Option<Vec<u8>>) {
        let mut out: Vec<u8> = Vec::new();
        if write_line(&mut out, 43, &self.0) {
            assert(out@ =~= render(self.reply()));
            Some(out)
        } else {
            None
        }
    }
}

impl RespValue for SimpleError {
    open spec fn reply(&self) -> Reply {
        Reply::Error(self.0@)
    }

    fn to_output(&self) -> (r: Option<Vec<u8>>) {
        let mut out: Vec<u8> = Vec::new();
        if write_line(&mut out, 45, &self.0) {
            assert(out@ =~= render(self.reply()));
            Some(out)
        } else {
            None
        }
    }
}

impl RespValue for BulkString {
    open spec fn reply(&self) -> Reply {
        Reply::Bulk(self.0@)
    }

    fn to_output(&self) -> (r: Option<Vec<u8>>) {
        let mut out: Vec<u8> = Vec::new();
        write_bulk(&mut out, &self.0);
        assert(out@ =~= render(self.reply()));
        Some(out)
    }
}

impl RespValue for Integer {
    open spec fn reply(&self) -> Reply {
        Reply::Int(self.0)
    }

    fn to_output(&self) -> (r: Option<Vec<u8>>) {
        let mut out: Vec<u8> = Vec::new();
        write_int(&mut out, self.0);
        assert(out@ =~= render(self.reply()));
        Some(out)
    }
}

impl RespValue for Null {
    open spec fn reply(&self) -> Reply {
        Reply::Null
    }

    fn to_output(&self) -> (r: Option<Vec<u8>>) {
        let mut out: Vec<u8> = Vec::new();
        write_null(&mut out);
        assert(out@ =~= render(self.reply()));
        Some(out)
    }
}

impl RespValue for Array {
    open spec fn reply(&self) -> Reply {
        Reply::Array(self@)
    }

    fn to_output(&self) -> (r: Option<Vec<u8>>) {
        let mut out: Vec<u8> = Vec::new();
        if self.write_to(&mut out) {
            assert(out@ =~= render(self.reply()));
            Some(out)
        } else {
            None
        }
    }
}

impl BulkString {
    /// Parses one bulk string that starts at `pos`: the string and the
    /// position just past it. Anything else there is a malformed frame.
    pub fn from_bytes_iter(buf: &[u8], pos: usize) -> (r: Result<(BulkString, usize), SimpleError>)
        requires
            pos <= buf@.len(),
        ensures
            match parse_reply(buf@.skip(pos as int)) {
                Some((Reply::Bulk(b), k)) => r matches Ok((x, e)) && x.0@ == b && e == pos + k,
                _ => r matches Err(e) && e.0@ == malformed_frame_text(),
            },
    {
        match parse_at(buf, pos) {
            Some((Resp::BulkString(b), e)) => Ok((b, e)),
            _ => Err(malformed_frame()),
        }
    }

    /// The payload.
    pub fn content(&self) -> (r: &Vec<u8>)
        ensures
            r@ == self.0@,
    {
        &self.0
    }
}

} // verus!
