//! Framing of a connection's input: whether the bytes received so far start
//! with a whole request frame, could still grow into one, or never can.
use vstd::prelude::*;

use crate::resp::{
    all_bulk, all_digits, as_bulks, cr_index, crlf, decimal, digits_value, is_digit, line_ok,
    parse_items, parse_reply, parse_request, parse_unsigned, render, render_request, render_upto,
    split_line, Reply,
};

verus! {

/// The outcome of reading one element from a buffer.
pub enum Scan {
    /// The element is whole; the value it holds and where it ends.
    Value(nat, nat),
    /// The buffer ends before the element does.
    Short,
    /// The element can never be completed.
    Bad,
}

/// Where each request frame stands in a buffer.
pub enum FrameStatus {
    /// A whole frame takes the first `n` bytes.
    Complete(nat),
    /// What there is is the start of a frame; more bytes are needed.
    Partial,
    /// No frame can start with these bytes.
    Malformed,
}

/// The first index at or after `j` that does not hold a decimal digit, or
/// the length of `s`.
pub open spec fn digits_end(s: Seq<u8>, j: nat) -> nat
    decreases s.len() - j,
{
    if j >= s.len() {
        s.len()
    } else if !is_digit(s[j as int]) {
        j
    } else {
        digits_end(s, j + 1)
    }
}

/// A header at `i`: the tag byte, one or more digits, `\r\n`.
pub open spec fn header_at(s: Seq<u8>, i: nat, tag: u8) -> Scan {
    if i >= s.len() {
        Scan::Short
    } else if s[i as int] != tag {
        Scan::Bad
    } else {
        let j = digits_end(s, i + 1);
        if j >= s.len() {
            Scan::Short
        } else if j == i + 1 || s[j as int] != 13 {
            Scan::Bad
        } else if j + 1 >= s.len() {
            Scan::Short
        } else if s[j + 1 as int] != 10 {
            Scan::Bad
        } else {
            Scan::Value(digits_value(s.subrange(i + 1 as int, j as int)), j + 2)
        }
    }
}

/// A bulk string at `i`: its header, that many bytes, `\r\n`.
pub open spec fn bulk_at(s: Seq<u8>, i: nat) -> Scan {
    match header_at(s, i, 36) {
        Scan::Value(n, j) => {
            let e = j + n;
            if e >= s.len() {
                Scan::Short
            } else if s[e as int] != 13 {
                Scan::Bad
            } else if e + 1 >= s.len() {
                Scan::Short
            } else if s[e + 1 as int] != 10 {
                Scan::Bad
            } else {
                Scan::Value(n, e + 2)
            }
        },
        other => other,
    }
}

/// `c` bulk strings from `i` on.
pub open spec fn bulks_at(s: Seq<u8>, i: nat, c: nat) -> Scan
    decreases c,
{
    if c == 0 {
        Scan::Value(0, i)
    } else {
        match bulk_at(s, i) {
            Scan::Value(_, j) => bulks_at(s, j, (c - 1) as nat),
            other => other,
        }
    }
}

/// Where the request frame at the front of `s` stands: an array header,
/// then that many bulk strings.
pub open spec fn frame_status(s: Seq<u8>) -> FrameStatus {
    match header_at(s, 0, 42) {
        Scan::Short => FrameStatus::Partial,
        Scan::Bad => FrameStatus::Malformed,
        Scan::Value(c, j) => match bulks_at(s, j, c) {
            Scan::Short => FrameStatus::Partial,
            Scan::Bad => FrameStatus::Malformed,
            Scan::Value(_, e) => FrameStatus::Complete(e),
        },
    }
}

/// Where the request frame at the front of a buffer stands.
pub enum Framing {
    Complete(usize),
    Partial,
    Malformed,
}

impl View for Framing {
    type V = FrameStatus;

    open spec fn view(&self) -> FrameStatus {
        match self {
            Framing::Complete(n) => FrameStatus::Complete(*n as nat),
            Framing::Partial => FrameStatus::Partial,
            Framing::Malformed => FrameStatus::Malformed,
        }
    }
}

/// The exec form of a `Scan`; `Big` is a value past 64 bits, with the
/// position where its element ends.
enum Scanned {
    Value(u64, usize),
    Big(usize),
    Short,
    Bad,
}

/// Reads the header at `i`.
fn header_scan(buf: &[u8], i: usize, tag: u8) -> (r: Scanned)
    requires
        i <= buf@.len(),
    ensures
        match r {
            Scanned::Value(n, j) => header_at(buf@, i as nat, tag) == Scan::Value(
                n as nat,
                j as nat,
            ),
            Scanned::Big(j) => header_at(buf@, i as nat, tag) matches Scan::Value(n, e) && n
                > u64::MAX && e == j,
            Scanned::Short => header_at(buf@, i as nat, tag) == Scan::Short,
            Scanned::Bad => header_at(buf@, i as nat, tag) == Scan::Bad,
        },
{
    let len = buf.len();
    if i >= len {
        return Scanned::Short;
    }
    if buf[i] != tag {
        return Scanned::Bad;
    }
    let mut j: usize = i + 1;
    while j < len && buf[j] >= 48 && buf[j] <= 57
        invariant
            i < j <= len,
            len == buf@.len(),
            digits_end(buf@, (i + 1) as nat) == digits_end(buf@, j as nat),
            forall|k: int| i + 1 <= k < j ==> is_digit(#[trigger] buf@[k]),
        decreases len - j,
    {
        j += 1;
    }
    assert(digits_end(buf@, j as nat) == j);
    if j >= len {
        return Scanned::Short;
    }
    if j == i + 1 || buf[j] != 13 {
        return Scanned::Bad;
    }
    if j + 1 >= len {
        return Scanned::Short;
    }
    if buf[j + 1] != 10 {
        return Scanned::Bad;
    }
    assert(crate::resp::all_digits(buf@.subrange(i + 1, j as int)));
    match crate::resp::parse_digits(buf, i + 1, j) {
        Some(n) => Scanned::Value(n, j + 2),
        None => Scanned::Big(j + 2),
    }
}

/// Where the request frame at the front of `buf` stands: complete (with
/// its length), partial, or malformed.
pub fn frame_status_of(buf: &[u8]) -> (r: Framing)
    ensures
        r@ == frame_status(buf@),
{
    let len = buf.len();
    let (c, start) = match header_scan(buf, 0, 42) {
        Scanned::Value(c, j) => (c, j),
        Scanned::Big(j) => {
            proof {
                if let Scan::Value(n, e) = header_at(buf@, 0, 42) {
                    assert(e == j);
                    assert(j <= len);
                    lemma_bulks_past_room(buf@, e, n, u64::MAX as nat);
                }
            }
            (u64::MAX, j)
        },
        Scanned::Short => {
            return Framing::Partial;
        },
        Scanned::Bad => {
            return Framing::Malformed;
        },
    };
    let ghost spec_c: nat = match header_at(buf@, 0, 42) {
        Scan::Value(n, _) => n,
        _ => 0,
    };
    let ghost whole = bulks_at(buf@, start as nat, spec_c);
    assert(whole == bulks_at(buf@, start as nat, c as nat));
    let mut k: u64 = 0;
    let mut i: usize = start;
    while k < c
        invariant
            k <= c,
            i <= len,
            len == buf@.len(),
            frame_status(buf@) == match whole {
                Scan::Short => FrameStatus::Partial,
                Scan::Bad => FrameStatus::Malformed,
                Scan::Value(_, e) => FrameStatus::Complete(e),
            },
            whole == bulks_at(buf@, i as nat, (c - k) as nat),
        decreases c - k,
    {
        let ghost here = i as nat;
        match header_scan(buf, i, 36) {
            Scanned::Value(n, j) => {
                if n >= (len - j) as u64 {
                    return Framing::Partial;
                }
                let e = j + n as usize;
                if buf[e] != 13 {
                    return Framing::Malformed;
                }
                if e + 1 >= len {
                    return Framing::Partial;
                }
                if buf[e + 1] != 10 {
                    return Framing::Malformed;
                }
                i = e + 2;
            },
            Scanned::Big(_) => {
                return Framing::Partial;
            },
            Scanned::Short => {
                return Framing::Partial;
            },
            Scanned::Bad => {
                return Framing::Malformed;
            },
        }
        k += 1;
    }
    Framing::Complete(i)
}

proof fn lemma_digits_end_ge(s: Seq<u8>, j: nat)
    ensures
        digits_end(s, j) >= j || digits_end(s, j) == s.len(),
    decreases s.len() - j,
{
    if j < s.len() && is_digit(s[j as int]) {
        lemma_digits_end_ge(s, j + 1);
    }
}

/// A bulk string that is whole ends past where it starts.
proof fn lemma_bulk_advances(s: Seq<u8>, i: nat)
    ensures
        bulk_at(s, i) matches Scan::Value(_, j) ==> i < j <= s.len(),
{
    lemma_digits_end_ge(s, i + 1);
}

/// Once more bulk strings are asked for than there are bytes left, the
/// count no longer matters: the scan stops short or bad first.
proof fn lemma_bulks_past_room(s: Seq<u8>, i: nat, c1: nat, c2: nat)
    requires
        i <= s.len(),
        i + c1 > s.len(),
        i + c2 > s.len(),
    ensures
        bulks_at(s, i, c1) == bulks_at(s, i, c2),
        !(bulks_at(s, i, c1) is Value),
    decreases c1,
{
    lemma_bulk_advances(s, i);
    if c1 > 0 && c2 > 0 {
        if let Scan::Value(_, j) = bulk_at(s, i) {
            lemma_bulks_past_room(s, j, (c1 - 1) as nat, (c2 - 1) as nat);
        }
    }
}


proof fn lemma_cr_skip(s: Seq<u8>, a: nat, b: nat)
    requires
        a <= b <= s.len(),
        forall|k: int| a <= k < b ==> s[k] != 13,
    ensures
        cr_index(s, a) == cr_index(s, b),
    decreases b - a,
{
    if a < b {
        lemma_cr_skip(s, a + 1, b);
    }
}

proof fn lemma_digits_end_digits(s: Seq<u8>, j: nat)
    requires
        j <= s.len(),
    ensures
        j <= digits_end(s, j) <= s.len(),
        forall|k: int| j <= k < digits_end(s, j) ==> is_digit(#[trigger] s[k]),
        digits_end(s, j) < s.len() ==> !is_digit(s[digits_end(s, j) as int]),
    decreases s.len() - j,
{
    if j < s.len() && is_digit(s[j as int]) {
        lemma_digits_end_digits(s, j + 1);
    }
}

proof fn lemma_digits_end_extend(s: Seq<u8>, t: Seq<u8>, j: nat)
    requires
        j <= s.len(),
        digits_end(s, j) < s.len(),
    ensures
        digits_end(s + t, j) == digits_end(s, j),
    decreases s.len() - j,
{
    if is_digit(s[j as int]) {
        lemma_digits_end_extend(s, t, j + 1);
    }
}

/// What a header looks like to the reply parser: a whole header is a line
/// of digits; one that is not whole gives no number.
proof fn lemma_header_line(s: Seq<u8>, i: nat, tag: u8)
    requires
        i < s.len(),
        s[i as int] == tag,
    ensures
        match header_at(s, i, tag) {
            Scan::Value(n, j) => {
                &&& i + 3 <= j <= s.len()
                &&& split_line(s.skip(i as int)) == Some((s.subrange((i + 1) as int, (j - 2) as int), (j - i) as nat))
                &&& parse_unsigned(s.subrange((i + 1) as int, (j - 2) as int)) == Some(n)
                &&& s[(i + 1) as int] != 45
            },
            _ => match split_line(s.skip(i as int)) {
                Some((line, _)) => parse_unsigned(line) is None,
                None => true,
            },
        },
{
    let t = s.skip(i as int);
    let j = digits_end(s, i + 1);
    lemma_digits_end_digits(s, i + 1);
    let jj = (j - i) as nat;
    assert forall|k: int| 1 <= k < jj implies t[k] != 13 && is_digit(t[k]) by {
        assert(t[k] == s[(i + k) as int]);
    }
    lemma_cr_skip(t, 1, jj);
    if j >= s.len() {
        if jj < t.len() {
        }
        assert(cr_index(t, jj) == t.len());
    } else if s[j as int] == 13 {
        assert(t[jj as int] == 13);
        assert(cr_index(t, jj) == jj);
        let line = t.subrange(1, jj as int);
        assert(line =~= s.subrange((i + 1) as int, j as int));
        if j == i + 1 {
            assert(line.len() == 0);
        } else if j + 1 < s.len() && s[(j + 1) as int] == 10 {
            assert(line_ok(line));
            assert(all_digits(line));
            assert(t[(jj + 1) as int] == 10);
            assert(is_digit(s[(i + 1) as int]));
        }
    } else {
        assert(t[jj as int] == s[j as int]);
        assert(cr_index(t, jj) == cr_index(t, jj + 1));
        if let Some((line, _)) = split_line(t) {
            let c = cr_index(t, 1);
            assert(c > jj) by {
                crate::resp::lemma_cr_index_ge(t, jj + 1);
            }
            assert(line[(jj - 1) as int] == s[j as int]);
            assert(!all_digits(line));
        }
    }
}

/// A bulk string that the framing reads whole is one the reply parser reads
/// whole, to the same end; otherwise the reply parser reads no bulk string
/// there.
proof fn lemma_bulk_parse(s: Seq<u8>, i: nat)
    requires
        i <= s.len(),
    ensures
        match bulk_at(s, i) {
            Scan::Value(n, e) => parse_reply(s.skip(i as int)) == Some::<(Reply, nat)>(
                (Reply::Bulk(s.subrange(e - n - 2, e - 2)), (e - i) as nat),
            ),
            _ => !(parse_reply(s.skip(i as int)) matches Some((Reply::Bulk(_), _))),
        },
{
    let t = s.skip(i as int);
    if i < s.len() && s[i as int] == 36 {
        lemma_header_line(s, i, 36);
        if let Scan::Value(n, j) = header_at(s, i, 36) {
            let line = s.subrange((i + 1) as int, (j - 2) as int);
            assert(line != seq![45u8, 49u8]) by {
                assert(line[0] == s[(i + 1) as int]);
            }
            let k = (j - i) as nat;
            if j + n < s.len() && s[(j + n) as int] == 13 && j + n + 1 < s.len() && s[(j + n + 1) as int] == 10 {
                assert(t[(k + n) as int] == s[(j + n) as int]);
                assert(t[(k + n + 1) as int] == s[(j + n + 1) as int]);
                assert(t.subrange(k as int, (k + n) as int) =~= s.subrange(j as int, (j + n) as int));
            } else if j + n + 1 < s.len() {
                assert(t[(k + n) as int] == s[(j + n) as int]);
                assert(t[(k + n + 1) as int] == s[(j + n + 1) as int]);
            } else if j + n < s.len() {
                assert(t[(k + n) as int] == s[(j + n) as int]);
            }
        }
    } else if i < s.len() {
        assert(t[0] == s[i as int]);
    }
}

/// The framing's run of bulk strings agrees with the reply parser's run of
/// items.
proof fn lemma_bulks_parse(s: Seq<u8>, i: nat, c: nat)
    requires
        i <= s.len(),
    ensures
        match bulks_at(s, i, c) {
            Scan::Value(_, e) => parse_items(s.skip(i as int), c) matches Some((xs, m)) && all_bulk(xs)
                && m == e - i && xs == as_bulks(bulk_payloads(s, i, c)),
            _ => !(parse_items(s.skip(i as int), c) matches Some((xs, _)) && all_bulk(xs)),
        },
    decreases c,
{
    if c > 0 {
        let t = s.skip(i as int);
        lemma_bulk_parse(s, i);
        lemma_bulk_advances(s, i);
        match bulk_at(s, i) {
            Scan::Value(_, j) => {
                let m = (j - i) as nat;
                assert(t.skip(m as int) =~= s.skip(j as int));
                lemma_bulks_parse(s, j, (c - 1) as nat);
                if let Some((rs_all, _)) = parse_items(t, c) {
                    if let Some((r, _)) = parse_reply(t) {
                        if let Some((rs, _)) = parse_items(t.skip(m as int), (c - 1) as nat) {
                            assert(rs_all == seq![r] + rs);
                            if all_bulk(rs_all) {
                                assert forall|q: int| 0 <= q < rs.len() implies (#[trigger] rs[q]) is Bulk by {
                                    assert(rs_all[(q + 1) as int] == rs[q]);
                                }
                            }
                            if all_bulk(rs) {
                                assert forall|q: int| 0 <= q < rs_all.len() implies (#[trigger] rs_all[q]) is Bulk by {
                                    if q > 0 {
                                        assert(rs_all[q] == rs[(q - 1) as int]);
                                    }
                                }
                            }
                        }
                    }
                }
            },
            _ => {
                if let Some((rs_all, _)) = parse_items(t, c) {
                    if let Some((r, _)) = parse_reply(t) {
                        assert(rs_all[0] == r);
                    }
                }
            },
        }
    }
}

/// The framing agrees with the request parser: a complete frame parses,
/// and takes exactly the framed length; a partial or malformed buffer does
/// not parse; and a malformed buffer parses with no bytes added after it.
pub proof fn lemma_framing_agrees(s: Seq<u8>, t: Seq<u8>)
    ensures
        frame_status(s) matches FrameStatus::Complete(n) ==> parse_request(s) matches Some((_, k))
            && k == n,
        !(frame_status(s) is Complete) ==> parse_request(s) is None,
        frame_status(s) is Malformed ==> frame_status(s + t) is Malformed && parse_request(s + t)
            is None,
{
    lemma_frame_parse(s);
    if frame_status(s) is Malformed {
        lemma_frame_extend(s, t);
        lemma_frame_parse(s + t);
    }
}

proof fn lemma_frame_parse(s: Seq<u8>)
    ensures
        frame_status(s) matches FrameStatus::Complete(n) ==> parse_request(s) matches Some((_, k))
            && k == n,
        !(frame_status(s) is Complete) ==> parse_request(s) is None,
{
    if s.len() > 0 && s[0] == 42 {
        lemma_header_line(s, 0, 42);
        assert(s.skip(0) =~= s);
        if let Scan::Value(c, j) = header_at(s, 0, 42) {
            lemma_bulks_parse(s, j, c);
        }
    }
}

proof fn lemma_header_extend(s: Seq<u8>, t: Seq<u8>, i: nat, tag: u8)
    requires
        i <= s.len(),
    ensures
        header_at(s, i, tag) matches Scan::Value(n, j) ==> header_at(s + t, i, tag) == Scan::Value(
            n,
            j,
        ),
        header_at(s, i, tag) is Bad ==> header_at(s + t, i, tag) is Bad,
{
    let u = s + t;
    if i < s.len() && s[i as int] == tag {
        lemma_digits_end_digits(s, i + 1);
        let j = digits_end(s, i + 1);
        if j < s.len() {
            lemma_digits_end_extend(s, t, i + 1);
            assert(u[j as int] == s[j as int]);
            if j + 1 < s.len() {
                assert(u[(j + 1) as int] == s[(j + 1) as int]);
                assert(u.subrange((i + 1) as int, j as int) =~= s.subrange((i + 1) as int, j as int));
            }
        }
    }
}

proof fn lemma_bulks_extend(s: Seq<u8>, t: Seq<u8>, i: nat, c: nat)
    requires
        i <= s.len(),
    ensures
        bulks_at(s, i, c) matches Scan::Value(n, j) ==> bulks_at(s + t, i, c) == Scan::Value(n, j),
        bulks_at(s, i, c) is Bad ==> bulks_at(s + t, i, c) is Bad,
    decreases c,
{
    if c > 0 {
        let u = s + t;
        lemma_header_extend(s, t, i, 36);
        lemma_bulk_advances(s, i);
        if let Scan::Value(n, j) = header_at(s, i, 36) {
            let e = j + n;
            if e < s.len() {
                assert(u[e as int] == s[e as int]);
                if e + 1 < s.len() {
                    assert(u[(e + 1) as int] == s[(e + 1) as int]);
                }
            }
        }
        if let Scan::Value(_, j) = bulk_at(s, i) {
            lemma_bulks_extend(s, t, j, (c - 1) as nat);
        }
    }
}

proof fn lemma_frame_extend(s: Seq<u8>, t: Seq<u8>)
    ensures
        frame_status(s) is Malformed ==> frame_status(s + t) is Malformed,
{
    lemma_header_extend(s, t, 0, 42);
    if let Scan::Value(c, j) = header_at(s, 0, 42) {
        lemma_bulks_extend(s, t, j, c);
    }
}


/// The payloads of `c` bulk strings from `i` on, as the framing reads them.
pub open spec fn bulk_payloads(s: Seq<u8>, i: nat, c: nat) -> Seq<Seq<u8>>
    decreases c,
{
    if c == 0 {
        Seq::empty()
    } else {
        match bulk_at(s, i) {
            Scan::Value(n, e) => seq![s.subrange(e - n - 2, e - 2)] + bulk_payloads(
                s,
                e,
                (c - 1) as nat,
            ),
            _ => Seq::empty(),
        }
    }
}

/// The header at `i` spells its number in shortest decimal form.
pub open spec fn canonical_header(s: Seq<u8>, i: nat, tag: u8) -> bool {
    header_at(s, i, tag) matches Scan::Value(n, j) && s.subrange(i + 1 as int, j - 2 as int)
        == decimal(n)
}

/// Every bulk string header among `c` from `i` on is in shortest form.
pub open spec fn canonical_bulks(s: Seq<u8>, i: nat, c: nat) -> bool
    decreases c,
{
    if c == 0 {
        true
    } else {
        &&& canonical_header(s, i, 36)
        &&& match bulk_at(s, i) {
            Scan::Value(_, e) => canonical_bulks(s, e, (c - 1) as nat),
            _ => false,
        }
    }
}

/// The request frame at the front of `s` writes every number in shortest
/// decimal form.
pub open spec fn canonical_frame(s: Seq<u8>) -> bool {
    canonical_header(s, 0, 42) && match header_at(s, 0, 42) {
        Scan::Value(c, j) => canonical_bulks(s, j, c),
        _ => false,
    }
}

proof fn lemma_bulks_render(s: Seq<u8>, i: nat, c: nat)
    requires
        i <= s.len(),
        canonical_bulks(s, i, c),
        bulks_at(s, i, c) is Value,
    ensures
        bulks_at(s, i, c) matches Scan::Value(_, e) && i <= e <= s.len() && s.subrange(
            i as int,
            e as int,
        ) == render_upto(as_bulks(bulk_payloads(s, i, c)), c),
        bulk_payloads(s, i, c).len() == c,
    decreases c,
{
    if c == 0 {
        assert(s.subrange(i as int, i as int) =~= Seq::<u8>::empty());
    } else {
        lemma_bulk_advances(s, i);
        if let Scan::Value(n, e1) = bulk_at(s, i) {
            lemma_bulks_render(s, e1, (c - 1) as nat);
            if let Scan::Value(_, e) = bulks_at(s, i, c) {
                if let Scan::Value(_, j) = header_at(s, i, 36) {
                    let p = s.subrange(e1 - n - 2, e1 - 2);
                    let ps = bulk_payloads(s, e1, (c - 1) as nat);
                    let all = seq![p] + ps;
                    assert(bulk_payloads(s, i, c) == all);
                    let xs = as_bulks(all);
                    crate::resp::lemma_render_upto_front(xs, c);
                    assert(xs.skip(1) =~= as_bulks(ps));
                    assert(xs[0] == Reply::Bulk(p));
                    assert(p.len() == n);
                    assert(i < s.len() && s[i as int] == 36);
                    lemma_header_line(s, i, 36);
                    let d = digits_end(s, i + 1);
                    assert(j == d + 2);
                    assert(s[d as int] == 13 && s[d + 1 as int] == 10);
                    assert(e1 == j + n + 2);
                    assert(s[(j + n) as int] == 13 && s[(j + n + 1) as int] == 10);
                    assert(s.subrange(i as int, e1 as int) =~= seq![36u8] + s.subrange(
                        i + 1 as int,
                        j - 2 as int,
                    ) + crlf() + p + crlf());
                    assert(s.subrange(i as int, e as int) =~= s.subrange(i as int, e1 as int)
                        + s.subrange(e1 as int, e as int));
                }
            }
        }
    }
}

/// A complete request frame whose numbers are all in shortest decimal form
/// is exactly the rendering of what it parses to: parsing it and rendering
/// the result gives back the same bytes.
pub proof fn lemma_parse_then_render(s: Seq<u8>)
    requires
        frame_status(s) is Complete,
        canonical_frame(s),
    ensures
        parse_request(s) matches Some((xs, n)) && render_request(xs) == s.take(n as int),
{
    lemma_frame_parse(s);
    assert(s.skip(0) =~= s);
    if let Scan::Value(c, j) = header_at(s, 0, 42) {
        lemma_header_line(s, 0, 42);
        lemma_bulks_parse(s, j, c);
        lemma_bulks_render(s, j, c);
        if let Scan::Value(_, e) = bulks_at(s, j, c) {
            let ps = bulk_payloads(s, j, c);
            if let Some((xs, n)) = parse_request(s) {
                assert(n == e);
                assert(xs =~= ps);
                assert(as_bulks(ps).len() == c);
                assert(s.take(e as int) =~= seq![42u8] + s.subrange(1, j - 2 as int) + crlf()
                    + s.subrange(j as int, e as int));
            }
        }
    }
}

} // verus!
