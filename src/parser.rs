//! Optional arguments of a command: keywords that take a value, and flags.
//! Matching is case-insensitive.
use vstd::prelude::*;

use crate::bytes::{ascii_lower, bytes_eq, clone_bytes, to_ascii_lower};
use crate::resp::byte_views;

verus! {

/// The index of the first entry whose key is `x`, searching from `i`.
pub open spec fn position_of<V>(e: Seq<(Seq<u8>, V)>, x: Seq<u8>, i: nat) -> Option<nat>
    decreases e.len() - i,
{
    if i >= e.len() {
        None
    } else if e[i as int].0 == x {
        Some(i)
    } else {
        position_of(e, x, i + 1)
    }
}

/// Reads the tokens from index `i` on into keyword values and flags. A
/// flag's token sets it; a keyword's token takes the next token as its
/// value. An unknown token, or a keyword with no value after it, is
/// returned (lower-cased) as the error.
pub open spec fn fill(
    a: Seq<(Seq<u8>, Option<Seq<u8>>)>,
    f: Seq<(Seq<u8>, bool)>,
    toks: Seq<Seq<u8>>,
    i: nat,
) -> Result<(Seq<(Seq<u8>, Option<Seq<u8>>)>, Seq<(Seq<u8>, bool)>), Seq<u8>>
    decreases toks.len() - i,
{
    if i >= toks.len() {
        Ok((a, f))
    } else {
        let x = ascii_lower(toks[i as int]);
        match position_of(f, x, 0) {
            Some(j) => fill(a, f.update(j as int, (x, true)), toks, i + 1),
            None => match position_of(a, x, 0) {
                Some(j) => if i + 1 < toks.len() {
                    fill(a.update(j as int, (x, Some(toks[i + 1 as int]))), f, toks, i + 2)
                } else {
                    Err(x)
                },
                None => Err(x),
            },
        }
    }
}

/// The optional arguments a command recognises: keywords with their
/// values once read, and flags with whether each was given.
pub struct OptionalArgs {
    pub args: Vec<(Vec<u8>, Option<Vec<u8>>)>,
    pub flags: Vec<(Vec<u8>, bool)>,
}

/// Keywords lower-cased from the first `n` names, with no values yet.
pub open spec fn initial_args(keys: Seq<Vec<u8>>, n: nat) -> Seq<(Seq<u8>, Option<Seq<u8>>)> {
    Seq::new(n, |j: int| (ascii_lower(keys[j]@), None::<Seq<u8>>))
}

/// Flags lower-cased from the first `n` names, none set yet.
pub open spec fn initial_flags(keys: Seq<Vec<u8>>, n: nat) -> Seq<(Seq<u8>, bool)> {
    Seq::new(n, |j: int| (ascii_lower(keys[j]@), false))
}

/// The keywords and their values, as byte sequences.
pub open spec fn args_model(v: Seq<(Vec<u8>, Option<Vec<u8>>)>) -> Seq<(Seq<u8>, Option<Seq<u8>>)> {
    Seq::new(
        v.len(),
        |i: int|
            (
                v[i].0@,
                match v[i].1 {
                    Some(x) => Some(x@),
                    None => None,
                },
            ),
    )
}

/// The flags and whether each was given, as byte sequences.
pub open spec fn flags_model(v: Seq<(Vec<u8>, bool)>) -> Seq<(Seq<u8>, bool)> {
    Seq::new(v.len(), |i: int| (v[i].0@, v[i].1))
}

/// The entries with their keys as byte sequences.
pub open spec fn keyed<V>(e: Seq<(Vec<u8>, V)>) -> Seq<(Seq<u8>, V)> {
    Seq::new(e.len(), |i: int| (e[i].0@, e[i].1))
}

fn position<V>(e: &Vec<(Vec<u8>, V)>, x: &[u8]) -> (r: Option<usize>)
    ensures
        match r {
            Some(j) => position_of(keyed(e@), x@, 0) == Some(j as nat),
            None => position_of(keyed(e@), x@, 0) is None,
        },
{
    let ghost m = keyed(e@);
    let mut i: usize = 0;
    while i < e.len()
        invariant
            i <= e@.len(),
            m == keyed(e@),
            position_of(m, x@, 0) == position_of(m, x@, i as nat),
        decreases e@.len() - i,
    {
        if bytes_eq(e[i].0.as_slice(), x) {
            return Some(i);
        }
        i += 1;
    }
    None
}

impl OptionalArgs {
    /// The recognised keywords (each takes a value) and flags, lower-cased;
    /// no keyword has a value and no flag is set yet.
    pub fn new(arg_keys: &[Vec<u8>], flag_keys: &[Vec<u8>]) -> (r: Self)
        ensures
            args_model(r.args@) == initial_args(arg_keys@, arg_keys@.len()),
            flags_model(r.flags@) == initial_flags(flag_keys@, flag_keys@.len()),
    {
        let mut args: Vec<(Vec<u8>, Option<Vec<u8>>)> = Vec::new();
        let mut i: usize = 0;
        while i < arg_keys.len()
            invariant
                i <= arg_keys@.len(),
                args@.len() == i,
                args_model(args@) == initial_args(arg_keys@, i as nat),
            decreases arg_keys@.len() - i,
        {
            let ghost prev = args@;
            let lowered = to_ascii_lower(arg_keys[i].as_slice());
            assert(lowered@ == ascii_lower(arg_keys@[i as int]@));
            args.push((lowered, None));
            assert forall|j: int| 0 <= j < i + 1 implies #[trigger] args_model(args@)[j]
                == initial_args(arg_keys@, (i + 1) as nat)[j] by {
                if j < i {
                    assert(args@[j] == prev[j]);
                    assert(args_model(prev)[j] == initial_args(arg_keys@, i as nat)[j]);
                }
            }
            assert(args_model(args@) =~= initial_args(arg_keys@, (i + 1) as nat));
            i += 1;
        }
        let mut flags: Vec<(Vec<u8>, bool)> = Vec::new();
        let mut k: usize = 0;
        while k < flag_keys.len()
            invariant
                k <= flag_keys@.len(),
                flags@.len() == k,
                flags_model(flags@) == initial_flags(flag_keys@, k as nat),
            decreases flag_keys@.len() - k,
        {
            let ghost prev = flags@;
            let lowered = to_ascii_lower(flag_keys[k].as_slice());
            assert(lowered@ == ascii_lower(flag_keys@[k as int]@));
            flags.push((lowered, false));
            assert forall|j: int| 0 <= j < k + 1 implies #[trigger] flags_model(flags@)[j]
                == initial_flags(flag_keys@, (k + 1) as nat)[j] by {
                if j < k {
                    assert(flags@[j] == prev[j]);
                    assert(flags_model(prev)[j] == initial_flags(flag_keys@, k as nat)[j]);
                }
            }
            assert(flags_model(flags@) =~= initial_flags(flag_keys@, (k + 1) as nat));
            k += 1;
        }
        OptionalArgs { args, flags }
    }

    /// Reads the tokens into keyword values and flags, as `fill` says; on an
    /// unknown token, or a keyword with no value, returns that token.
    pub fn insert_from_iter(&mut self, it: &[Vec<u8>]) -> (r: Result<(), Vec<u8>>)
        ensures
            match fill(
                args_model(old(self).args@),
                flags_model(old(self).flags@),
                byte_views(it@),
                0,
            ) {
                Ok((a, f)) => r is Ok && args_model(final(self).args@) == a && flags_model(
                    final(self).flags@,
                ) == f,
                Err(x) => r matches Err(e) && e@ == x,
            },
    {
        let ghost toks = byte_views(it@);
        let ghost goal = fill(args_model(self.args@), flags_model(self.flags@), toks, 0);
        let mut i: usize = 0;
        while i < it.len()
            invariant
                i <= it@.len(),
                toks == byte_views(it@),
                goal == fill(args_model(old(self).args@), flags_model(old(self).flags@), toks, 0),
                goal == fill(args_model(self.args@), flags_model(self.flags@), toks, i as nat),
            decreases it@.len() - i,
        {
            let x = to_ascii_lower(it[i].as_slice());
            assert(x@ == ascii_lower(toks[i as int]));
            let ghost a0 = args_model(self.args@);
            let ghost f0 = flags_model(self.flags@);
            proof {
                assert(keyed(self.flags@) =~= flags_model(self.flags@));
            }
            match position(&self.flags, x.as_slice()) {
                Some(j) => {
                    proof {
                        lemma_position_bound(flags_model(self.flags@), x@, 0);
                    }
                    let ghost before = flags_model(self.flags@);
                    self.flags.set(j, (x, true));
                    assert(flags_model(self.flags@) =~= before.update(j as int, (x@, true)));
                    assert(position_of(f0, x@, 0) == Some(j as nat));
                    assert(fill(a0, f0, toks, i as nat) == fill(a0, f0.update(j as int, (x@, true)), toks, (i + 1) as nat));
                    i += 1;
                },
                None => {
                    let ghost am = args_model(self.args@);
                    let ghost raw = keyed(self.args@);
                    proof {
                        lemma_position_same_keys(raw, am, x@, 0);
                    }
                    match position(&self.args, x.as_slice()) {
                        Some(j) => {
                            if i + 1 < it.len() {
                                proof {
                                    lemma_position_bound(am, x@, 0);
                                }
                                let v = clone_bytes(&it[i + 1]);
                                self.args.set(j, (x, Some(v)));
                                assert(args_model(self.args@) =~= am.update(
                                    j as int,
                                    (x@, Some(toks[i + 1 as int])),
                                ));
                                assert(position_of(f0, x@, 0) is None);
                                assert(position_of(a0, x@, 0) == Some(j as nat));
                                assert(fill(a0, f0, toks, i as nat) == fill(a0.update(j as int, (x@, Some(toks[i + 1 as int]))), f0, toks, (i + 2) as nat));
                                i += 2;
                            } else {
                                assert(position_of(flags_model(self.flags@), x@, 0) is None);
                                assert(goal == Err::<(Seq<(Seq<u8>, Option<Seq<u8>>)>, Seq<(Seq<u8>, bool)>), Seq<u8>>(x@));
                                return Err(x);
                            }
                        },
                        None => {
                            assert(position_of(flags_model(self.flags@), x@, 0) is None);
                            assert(position_of(am, x@, 0) is None);
                            return Err(x);
                        },
                    }
                },
            }
        }
        Ok(())
    }
}

pub(crate) proof fn lemma_position_bound<V>(e: Seq<(Seq<u8>, V)>, x: Seq<u8>, i: nat)
    ensures
        position_of(e, x, i) matches Some(j) ==> j < e.len() && e[j as int].0 == x,
    decreases e.len() - i,
{
    if i < e.len() && e[i as int].0 != x {
        lemma_position_bound(e, x, i + 1);
    }
}

proof fn lemma_position_same_keys<V, W>(e: Seq<(Seq<u8>, V)>, g: Seq<(Seq<u8>, W)>, x: Seq<u8>, i: nat)
    requires
        e.len() == g.len(),
        forall|j: int| 0 <= j < e.len() ==> #[trigger] e[j].0 == g[j].0,
    ensures
        position_of(e, x, i) == position_of(g, x, i),
    decreases e.len() - i,
{
    if i < e.len() {
        lemma_position_same_keys(e, g, x, i + 1);
    }
}

} // verus!
