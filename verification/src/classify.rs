//! Command classification and aggregation.
//!
//! Each logical command updates up to three frequency tables: the resolved
//! command token itself, the manual page it looks up, and the
//! version-control subcommand it runs.  The three classifications are
//! independent: a failure of one (a token that is not UTF-8) never blocks
//! the others.

use vstd::prelude::*;

use crate::bytes::copy_bytes;
use crate::decode::ZshHistory;
use crate::decode::decode;
use crate::table::FreqTable;
use crate::tokens::all_digits;
use crate::tokens::arg_at;
use crate::tokens::resolved_cmd;
use crate::utf8::is_utf8;
use crate::utf8::utf8_ok;

verus! {

pub open spec fn man_bytes() -> Seq<u8> {
    seq![109u8, 97u8, 110u8]
}

pub open spec fn g_bytes() -> Seq<u8> {
    seq![103u8]
}

pub open spec fn git_bytes() -> Seq<u8> {
    seq![103u8, 105u8, 116u8]
}

pub open spec fn gc_bytes() -> Seq<u8> {
    seq![103u8, 99u8]
}

pub open spec fn gca_bytes() -> Seq<u8> {
    seq![103u8, 99u8, 97u8]
}

pub open spec fn ga_bytes() -> Seq<u8> {
    seq![103u8, 97u8]
}

pub open spec fn gau_bytes() -> Seq<u8> {
    seq![103u8, 97u8, 117u8]
}

pub open spec fn commit_bytes() -> Seq<u8> {
    seq![99u8, 111u8, 109u8, 109u8, 105u8, 116u8]
}

pub open spec fn add_word_bytes() -> Seq<u8> {
    seq![97u8, 100u8, 100u8]
}

/// The command-table key a logical command yields: its resolved command
/// token, provided one exists and decodes as UTF-8.
pub open spec fn cmd_key(c: Seq<u8>) -> Option<Seq<u8>> {
    match resolved_cmd(c) {
        Some(t) => if utf8_ok(t) {
            Some(t)
        } else {
            None
        },
        None => None,
    }
}

/// The man-page-table key a logical command yields.  A digits-only first
/// argument names a section, and the page is then the second argument; a
/// section with no page records nothing.
pub open spec fn man_key(c: Seq<u8>) -> Option<Seq<u8>> {
    if resolved_cmd(c) == Some(man_bytes()) {
        match arg_at(c, 1) {
            Some(a1) => if all_digits(a1) {
                match arg_at(c, 2) {
                    Some(a2) => if utf8_ok(a2) {
                        Some(a2)
                    } else {
                        None
                    },
                    None => None,
                }
            } else {
                if utf8_ok(a1) {
                    Some(a1)
                } else {
                    None
                }
            },
            None => None,
        }
    } else {
        None
    }
}

/// The subcommand-table key a logical command yields: the first argument of
/// `g` or `git`, or the fixed word an alias stands for.  The cases are
/// mutually exclusive and tried in this order.
pub open spec fn git_key(c: Seq<u8>) -> Option<Seq<u8>> {
    match resolved_cmd(c) {
        Some(t) => if t == g_bytes() || t == git_bytes() {
            match arg_at(c, 1) {
                Some(a1) => if utf8_ok(a1) {
                    Some(a1)
                } else {
                    None
                },
                None => None,
            }
        } else if t == gc_bytes() || t == gca_bytes() {
            Some(commit_bytes())
        } else if t == ga_bytes() || t == gau_bytes() {
            Some(add_word_bytes())
        } else {
            None
        },
        None => None,
    }
}

pub open spec fn cmd_key_fn() -> spec_fn(Seq<u8>) -> Option<Seq<u8>> {
    |c: Seq<u8>| cmd_key(c)
}

pub open spec fn man_key_fn() -> spec_fn(Seq<u8>) -> Option<Seq<u8>> {
    |c: Seq<u8>| man_key(c)
}

pub open spec fn git_key_fn() -> spec_fn(Seq<u8>) -> Option<Seq<u8>> {
    |c: Seq<u8>| git_key(c)
}

/// How many commands of `cmds` yield key `k` under the classification
/// `key_of`.
pub open spec fn hits(
    cmds: Seq<Seq<u8>>,
    key_of: spec_fn(Seq<u8>) -> Option<Seq<u8>>,
    k: Seq<u8>,
) -> int
    decreases cmds.len(),
{
    if cmds.len() == 0 {
        0
    } else {
        (if key_of(cmds[0]) == Some(k) {
            1int
        } else {
            0int
        }) + hits(cmds.skip(1), key_of, k)
    }
}

/// How many commands of `cmds` yield any key under `key_of`.
pub open spec fn hit_count(cmds: Seq<Seq<u8>>, key_of: spec_fn(Seq<u8>) -> Option<Seq<u8>>) -> int
    decreases cmds.len(),
{
    if cmds.len() == 0 {
        0
    } else {
        (if key_of(cmds[0]) is Some {
            1int
        } else {
            0int
        }) + hit_count(cmds.skip(1), key_of)
    }
}

pub proof fn lemma_hits_push(
    s: Seq<Seq<u8>>,
    key_of: spec_fn(Seq<u8>) -> Option<Seq<u8>>,
    k: Seq<u8>,
    c: Seq<u8>,
)
    ensures
        hits(s.push(c), key_of, k) == hits(s, key_of, k) + (if key_of(c) == Some(k) {
            1int
        } else {
            0int
        }),
    decreases s.len(),
{
    let u = s.push(c);
    if s.len() == 0 {
        assert(u.skip(1) =~= Seq::<Seq<u8>>::empty());
        assert(u[0] == c);
        assert(hits(Seq::<Seq<u8>>::empty(), key_of, k) == 0);
        assert(hits(u, key_of, k) == (if key_of(c) == Some(k) {
            1int
        } else {
            0int
        }) + hits(u.skip(1), key_of, k));
    } else {
        lemma_hits_push(s.skip(1), key_of, k, c);
        assert(u.skip(1) =~= s.skip(1).push(c));
        assert(u[0] == s[0]);
    }
}

pub proof fn lemma_hit_count_push(
    s: Seq<Seq<u8>>,
    key_of: spec_fn(Seq<u8>) -> Option<Seq<u8>>,
    c: Seq<u8>,
)
    ensures
        hit_count(s.push(c), key_of) == hit_count(s, key_of) + (if key_of(c) is Some {
            1int
        } else {
            0int
        }),
    decreases s.len(),
{
    let u = s.push(c);
    if s.len() == 0 {
        assert(u.skip(1) =~= Seq::<Seq<u8>>::empty());
        assert(u[0] == c);
        assert(hit_count(Seq::<Seq<u8>>::empty(), key_of) == 0);
        assert(hit_count(u, key_of) == (if key_of(c) is Some {
            1int
        } else {
            0int
        }) + hit_count(u.skip(1), key_of));
    } else {
        lemma_hit_count_push(s.skip(1), key_of, c);
        assert(u.skip(1) =~= s.skip(1).push(c));
        assert(u[0] == s[0]);
    }
}

pub proof fn lemma_hit_count_le(s: Seq<Seq<u8>>, key_of: spec_fn(Seq<u8>) -> Option<Seq<u8>>)
    ensures
        0 <= hit_count(s, key_of) <= s.len(),
    decreases s.len(),
{
    if s.len() > 0 {
        lemma_hit_count_le(s.skip(1), key_of);
    }
}

/// How one table relates to its old value after one classification: raised
/// by one under the yielded key, untouched when no key was yielded.
pub open spec fn bumped(t0: FreqTable, t1: FreqTable, k: Option<Seq<u8>>) -> bool {
    match k {
        Some(key) => {
            &&& t1.count_of(key) == t0.count_of(key) + 1
            &&& forall|k2: Seq<u8>| k2 != key ==> t1.count_of(k2) == t0.count_of(k2)
            &&& t1.total() == t0.total() + 1
        },
        None => t1 == t0,
    }
}

/// The aggregation state: three independent frequency tables.
pub struct State {
    pub man_pages: FreqTable,
    pub git_subcommands: FreqTable,
    pub commands: FreqTable,
}

impl State {
    pub open spec fn wf(self) -> bool {
        self.man_pages.wf() && self.git_subcommands.wf() && self.commands.wf()
    }

    /// A fresh state with three empty tables.
    pub fn new() -> (s: Self)
        ensures
            s.wf(),
            s.man_pages.total() == 0,
            s.git_subcommands.total() == 0,
            s.commands.total() == 0,
            forall|k: Seq<u8>| s.man_pages.count_of(k) == 0,
            forall|k: Seq<u8>| s.git_subcommands.count_of(k) == 0,
            forall|k: Seq<u8>| s.commands.count_of(k) == 0,
    {
        State {
            man_pages: FreqTable::new(),
            git_subcommands: FreqTable::new(),
            commands: FreqTable::new(),
        }
    }
}

/// Whether a token consists of ASCII digit bytes only.
fn all_digits_exec(t: &Vec<u8>) -> (r: bool)
    ensures
        r == all_digits(t@),
{
    let mut i: usize = 0;
    while i < t.len()
        invariant
            i <= t@.len(),
            forall|j: int| 0 <= j < i ==> 48 <= #[trigger] t@[j] <= 57,
        decreases t@.len() - i,
    {
        if t[i] < 48 || t[i] > 57 {
            return false;
        }
        i += 1;
    }
    true
}

fn eq1(t: &Vec<u8>, b0: u8) -> (r: bool)
    ensures
        r == (t@ == seq![b0]),
{
    if t.len() == 1 && t[0] == b0 {
        proof {
            assert(t@ =~= seq![b0]);
        }
        true
    } else {
        proof {
            if t@ == seq![b0] {
                assert(t@.len() == 1 && t@[0] == b0);
            }
        }
        false
    }
}

fn eq2(t: &Vec<u8>, b0: u8, b1: u8) -> (r: bool)
    ensures
        r == (t@ == seq![b0, b1]),
{
    if t.len() == 2 && t[0] == b0 && t[1] == b1 {
        proof {
            assert(t@ =~= seq![b0, b1]);
        }
        true
    } else {
        proof {
            if t@ == seq![b0, b1] {
                assert(t@.len() == 2 && t@[0] == b0 && t@[1] == b1);
            }
        }
        false
    }
}

fn eq3(t: &Vec<u8>, b0: u8, b1: u8, b2: u8) -> (r: bool)
    ensures
        r == (t@ == seq![b0, b1, b2]),
{
    if t.len() == 3 && t[0] == b0 && t[1] == b1 && t[2] == b2 {
        proof {
            assert(t@ =~= seq![b0, b1, b2]);
        }
        true
    } else {
        proof {
            if t@ == seq![b0, b1, b2] {
                assert(t@.len() == 3 && t@[0] == b0 && t@[1] == b1 && t@[2] == b2);
            }
        }
        false
    }
}

/// The literal word recorded for the commit aliases.
fn lit_commit() -> (r: Vec<u8>)
    ensures
        r@ == commit_bytes(),
        forall|i: int| 0 <= i < r@.len() ==> r@[i] < 0x80,
{
    let mut v: Vec<u8> = Vec::new();
    v.push(99);
    v.push(111);
    v.push(109);
    v.push(109);
    v.push(105);
    v.push(116);
    proof {
        assert(v@ =~= commit_bytes());
    }
    v
}

/// The literal word recorded for the staging aliases.
fn lit_add_word() -> (r: Vec<u8>)
    ensures
        r@ == add_word_bytes(),
        forall|i: int| 0 <= i < r@.len() ==> r@[i] < 0x80,
{
    let mut v: Vec<u8> = Vec::new();
    v.push(97);
    v.push(100);
    v.push(100);
    proof {
        assert(v@ =~= add_word_bytes());
    }
    v
}

/// Records `key` in `t` when it decodes as UTF-8; otherwise leaves `t` as
/// it stands.
fn bump_if_utf8(t: &mut FreqTable, key: &Vec<u8>)
    requires
        old(t).wf(),
        old(t).total() < u64::MAX,
    ensures
        final(t).wf(),
        bumped(
            *old(t),
            *final(t),
            if utf8_ok(key@) {
                Some(key@)
            } else {
                None
            },
        ),
        (forall|i: int| 0 <= i < key@.len() ==> key@[i] < 0x80) ==> utf8_ok(key@),
{
    if is_utf8(key) {
        t.bump(copy_bytes(key));
    }
}

/// Classifies one logical command, updating each table independently.
fn classify(state: &mut State, entry: &Vec<u8>)
    requires
        old(state).wf(),
        old(state).man_pages.total() < u64::MAX,
        old(state).git_subcommands.total() < u64::MAX,
        old(state).commands.total() < u64::MAX,
    ensures
        final(state).wf(),
        bumped(old(state).man_pages, final(state).man_pages, man_key(entry@)),
        bumped(old(state).git_subcommands, final(state).git_subcommands, git_key(entry@)),
        bumped(old(state).commands, final(state).commands, cmd_key(entry@)),
        final(state).man_pages.total() <= old(state).man_pages.total() + 1,
        final(state).git_subcommands.total() <= old(state).git_subcommands.total() + 1,
        final(state).commands.total() <= old(state).commands.total() + 1,
{
    let parts = crate::tokens::resolve_command(entry);
    let cmd_opt = parts.0;
    let a1_opt = parts.1;
    let a2_opt = parts.2;

    // manual-page lookups: `man [section] page`
    if let Some(c) = &cmd_opt {
        if eq3(c, 109, 97, 110) {
            if let Some(a1) = &a1_opt {
                if all_digits_exec(a1) {
                    if let Some(a2) = &a2_opt {
                        bump_if_utf8(&mut state.man_pages, a2);
                    }
                } else {
                    bump_if_utf8(&mut state.man_pages, a1);
                }
            }
        }
    }
    assert(bumped(old(state).man_pages, state.man_pages, man_key(entry@)));

    // version-control subcommands, aliases included
    if let Some(c) = &cmd_opt {
        if eq1(c, 103) || eq3(c, 103, 105, 116) {
            if let Some(a1) = &a1_opt {
                bump_if_utf8(&mut state.git_subcommands, a1);
            }
        } else if eq2(c, 103, 99) || eq3(c, 103, 99, 97) {
            let word = lit_commit();
            bump_if_utf8(&mut state.git_subcommands, &word);
            assert(utf8_ok(commit_bytes()));
        } else if eq2(c, 103, 97) || eq3(c, 103, 97, 117) {
            let word = lit_add_word();
            bump_if_utf8(&mut state.git_subcommands, &word);
            assert(utf8_ok(add_word_bytes()));
        }
    }
    assert(bumped(old(state).git_subcommands, state.git_subcommands, git_key(entry@)));

    // the command itself
    if let Some(c) = &cmd_opt {
        bump_if_utf8(&mut state.commands, c);
    }
    assert(bumped(old(state).commands, state.commands, cmd_key(entry@)));
}

/// Consumes every logical command the history still holds and adds its
/// classifications to the three tables.  Per key, each table grows by the
/// number of commands yielding that key, and each table's total grows by
/// the number of commands yielding any key for it: summed over the command
/// table, every record whose resolved token decodes as UTF-8 counts exactly
/// once.
pub fn process_command_history(state: &mut State, command_history: &mut ZshHistory)
    requires
        old(state).wf(),
        old(command_history).wf(),
        old(state).man_pages.total() + old(command_history).remaining().len() <= u64::MAX,
        old(state).git_subcommands.total() + old(command_history).remaining().len() <= u64::MAX,
        old(state).commands.total() + old(command_history).remaining().len() <= u64::MAX,
    ensures
        final(state).wf(),
        final(command_history).wf(),
        decode(final(command_history).remaining()).len() == 0,
        forall|k: Seq<u8>|
            final(state).man_pages.count_of(k) == old(state).man_pages.count_of(k) + hits(
                decode(old(command_history).remaining()),
                man_key_fn(),
                k,
            ),
        forall|k: Seq<u8>|
            final(state).git_subcommands.count_of(k) == old(state).git_subcommands.count_of(k)
                + hits(decode(old(command_history).remaining()), git_key_fn(), k),
        forall|k: Seq<u8>|
            final(state).commands.count_of(k) == old(state).commands.count_of(k) + hits(
                decode(old(command_history).remaining()),
                cmd_key_fn(),
                k,
            ),
        final(state).man_pages.total() == old(state).man_pages.total() + hit_count(
            decode(old(command_history).remaining()),
            man_key_fn(),
        ),
        final(state).git_subcommands.total() == old(state).git_subcommands.total() + hit_count(
            decode(old(command_history).remaining()),
            git_key_fn(),
        ),
        final(state).commands.total() == old(state).commands.total() + hit_count(
            decode(old(command_history).remaining()),
            cmd_key_fn(),
        ),
{
    let ghost st0 = *old(state);
    let ghost rem0 = old(command_history).remaining();
    let ghost d = decode(rem0);
    let ghost mut n: int = 0;
    proof {
        crate::decode::lemma_decode_len(rem0);
        assert(d.take(0) =~= Seq::<Seq<u8>>::empty());
    }
    loop
        invariant
            st0 == *old(state),
            rem0 == old(command_history).remaining(),
            d == decode(rem0),
            d.len() <= rem0.len(),
            st0.man_pages.total() + rem0.len() <= u64::MAX,
            st0.git_subcommands.total() + rem0.len() <= u64::MAX,
            st0.commands.total() + rem0.len() <= u64::MAX,
            state.wf(),
            command_history.wf(),
            0 <= n <= d.len(),
            decode(command_history.remaining()) == d.skip(n),
            forall|k: Seq<u8>|
                state.man_pages.count_of(k) == st0.man_pages.count_of(k) + hits(
                    d.take(n),
                    man_key_fn(),
                    k,
                ),
            forall|k: Seq<u8>|
                state.git_subcommands.count_of(k) == st0.git_subcommands.count_of(k) + hits(
                    d.take(n),
                    git_key_fn(),
                    k,
                ),
            forall|k: Seq<u8>|
                state.commands.count_of(k) == st0.commands.count_of(k) + hits(
                    d.take(n),
                    cmd_key_fn(),
                    k,
                ),
            state.man_pages.total() == st0.man_pages.total() + hit_count(d.take(n), man_key_fn()),
            state.git_subcommands.total() == st0.git_subcommands.total() + hit_count(
                d.take(n),
                git_key_fn(),
            ),
            state.commands.total() == st0.commands.total() + hit_count(d.take(n), cmd_key_fn()),
        ensures
            state.wf(),
            command_history.wf(),
            decode(command_history.remaining()).len() == 0,
            n == d.len(),
            d.take(n) == d,
        decreases d.len() - n,
    {
        let next_entry = command_history.next();
        match next_entry {
            Option::None => {
                proof {
                    assert(d.skip(n).len() == 0);
                    assert(n == d.len());
                    assert(d.take(n) =~= d);
                }
                break ;
            },
            Option::Some(entry) => {
                proof {
                    assert(d.skip(n).len() > 0);
                    assert(n < d.len());
                    assert(entry@ == d.skip(n)[0]);
                    assert(d.skip(n)[0] == d[n]);
                    lemma_hit_count_le(d.take(n), man_key_fn());
                    lemma_hit_count_le(d.take(n), git_key_fn());
                    lemma_hit_count_le(d.take(n), cmd_key_fn());
                    assert(d.take(n).len() == n);
                }
                classify(state, &entry);
                proof {
                    assert(d.take(n + 1) =~= d.take(n).push(d[n]));
                    lemma_hit_count_push(d.take(n), man_key_fn(), d[n]);
                    lemma_hit_count_push(d.take(n), git_key_fn(), d[n]);
                    lemma_hit_count_push(d.take(n), cmd_key_fn(), d[n]);
                    assert forall|k: Seq<u8>|
                        state.man_pages.count_of(k) == st0.man_pages.count_of(k) + hits(
                            d.take(n + 1),
                            man_key_fn(),
                            k,
                        ) by {
                        lemma_hits_push(d.take(n), man_key_fn(), k, d[n]);
                    }
                    assert forall|k: Seq<u8>|
                        state.git_subcommands.count_of(k) == st0.git_subcommands.count_of(k)
                            + hits(d.take(n + 1), git_key_fn(), k) by {
                        lemma_hits_push(d.take(n), git_key_fn(), k, d[n]);
                    }
                    assert forall|k: Seq<u8>|
                        state.commands.count_of(k) == st0.commands.count_of(k) + hits(
                            d.take(n + 1),
                            cmd_key_fn(),
                            k,
                        ) by {
                        lemma_hits_push(d.take(n), cmd_key_fn(), k, d[n]);
                    }
                    assert(d.skip(n).skip(1) =~= d.skip(n + 1));
                    n = n + 1;
                }
            },
        }
    }
}

/// A record counts toward the command table exactly when its resolved
/// command token exists and is valid UTF-8: summed over all keys, the table
/// grows by one per such record.
pub proof fn lemma_cmd_key_some(c: Seq<u8>)
    ensures
        (cmd_key(c) is Some) <==> (resolved_cmd(c) matches Some(t) && utf8_ok(t)),
{
}

/// A digits-only section with no page argument records no manual-page
/// lookup at all.
pub proof fn lemma_man_section_without_page(c: Seq<u8>, a1: Seq<u8>)
    requires
        resolved_cmd(c) == Some(man_bytes()),
        arg_at(c, 1) == Some(a1),
        all_digits(a1),
        arg_at(c, 2) is None,
    ensures
        man_key(c) is None,
{
}

/// A digits-only section followed by a page records the page, never the
/// section number.
pub proof fn lemma_man_section_with_page(c: Seq<u8>, a1: Seq<u8>, a2: Seq<u8>)
    requires
        resolved_cmd(c) == Some(man_bytes()),
        arg_at(c, 1) == Some(a1),
        all_digits(a1),
        arg_at(c, 2) == Some(a2),
        utf8_ok(a2),
    ensures
        man_key(c) == Some(a2),
{
}

/// The commit aliases record one `commit`, whatever their arguments.
pub proof fn lemma_alias_commit(c: Seq<u8>)
    requires
        resolved_cmd(c) == Some(gc_bytes()) || resolved_cmd(c) == Some(gca_bytes()),
    ensures
        git_key(c) == Some(commit_bytes()),
{
    assert(g_bytes().len() == 1 && gc_bytes().len() == 2);
    assert(gca_bytes().len() == 3 && git_bytes().len() == 3);
    assert(gca_bytes()[1] == 99 && git_bytes()[1] == 105);
}

} // verus!
