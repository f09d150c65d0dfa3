//! History-file decoding.
//!
//! A history file is a sequence of `\n`-delimited lines.  A *metadata line*
//! begins with `:` and carries a command payload after its first `;`; the
//! lines that follow it, up to the next metadata line, are *continuation
//! lines* whose bytes belong to the same logical command and are appended
//! verbatim, with no separator.  A metadata line with no `;` is malformed and
//! yields nothing; a continuation line with no open record is an orphan and
//! is dropped.

use vstd::prelude::*;

use crate::bytes::extend_bytes;
use crate::bytes::tail_from;

verus! {

/// A metadata line: its first byte is ASCII `:`.
pub open spec fn is_meta(l: Seq<u8>) -> bool {
    l.len() > 0 && l[0] == 58u8
}

/// Whether a line holds at least one `;` byte.
pub open spec fn has_semi(l: Seq<u8>) -> bool {
    exists|i: int| 0 <= i < l.len() && l[i] == 59u8
}

/// The bytes after the first `;` of a line: the command payload of a
/// well-formed metadata line.
pub open spec fn after_first_semi(l: Seq<u8>) -> Seq<u8>
    decreases l.len(),
{
    if l.len() == 0 {
        Seq::empty()
    } else if l[0] == 59u8 {
        l.skip(1)
    } else {
        after_first_semi(l.skip(1))
    }
}

/// The logical commands encoded by a sequence of raw lines.
pub open spec fn decode(lines: Seq<Seq<u8>>) -> Seq<Seq<u8>>
    decreases lines.len(), 0int,
{
    if lines.len() == 0 {
        Seq::empty()
    } else if is_meta(lines[0]) && has_semi(lines[0]) {
        decode_record(after_first_semi(lines[0]), lines.skip(1))
    } else {
        decode(lines.skip(1))
    }
}

/// The logical commands encoded by `lines` while a record with content `acc`
/// is open: continuation lines are appended to `acc` until a metadata line or
/// the end of the input closes the record.
pub open spec fn decode_record(acc: Seq<u8>, lines: Seq<Seq<u8>>) -> Seq<Seq<u8>>
    decreases lines.len(), 1int,
{
    if lines.len() == 0 {
        seq![acc]
    } else if is_meta(lines[0]) {
        seq![acc] + decode(lines)
    } else {
        decode_record(acc + lines[0], lines.skip(1))
    }
}

/// There are never more logical commands than raw lines.
pub proof fn lemma_decode_len(lines: Seq<Seq<u8>>)
    ensures
        decode(lines).len() <= lines.len(),
    decreases lines.len(), 0int,
{
    if lines.len() == 0 {
    } else if is_meta(lines[0]) && has_semi(lines[0]) {
        lemma_decode_record_len(after_first_semi(lines[0]), lines.skip(1));
    } else {
        lemma_decode_len(lines.skip(1));
    }
}

/// An open record yields one command plus at most one per remaining line.
pub proof fn lemma_decode_record_len(acc: Seq<u8>, lines: Seq<Seq<u8>>)
    ensures
        decode_record(acc, lines).len() <= 1 + lines.len(),
    decreases lines.len(), 1int,
{
    if lines.len() == 0 {
    } else if is_meta(lines[0]) {
        lemma_decode_len(lines);
    } else {
        lemma_decode_record_len(acc + lines[0], lines.skip(1));
    }
}

/// If the first `;` of `l` stands at index `i`, the payload is what follows it.
proof fn lemma_after_first_semi_at(l: Seq<u8>, i: int)
    requires
        0 <= i < l.len(),
        l[i] == 59u8,
        forall|j: int| 0 <= j < i ==> l[j] != 59u8,
    ensures
        after_first_semi(l) == l.skip(i + 1),
    decreases i,
{
    if i == 0 {
    } else {
        assert(forall|j: int| 0 <= j < i - 1 ==> l.skip(1)[j] == l[j + 1]);
        lemma_after_first_semi_at(l.skip(1), i - 1);
        assert(l.skip(1).skip(i) =~= l.skip(i + 1));
    }
}

/// A malformed metadata line (no `;`) contributes no logical command.
pub proof fn lemma_malformed_meta_dropped(l: Seq<u8>, rest: Seq<Seq<u8>>)
    requires
        is_meta(l),
        !has_semi(l),
    ensures
        decode(seq![l] + rest) == decode(rest),
{
    assert((seq![l] + rest).skip(1) =~= rest);
}

/// Continuation bytes are appended to the payload with no inserted separator.
pub proof fn lemma_continuation_appended(m: Seq<u8>, c: Seq<u8>)
    requires
        is_meta(m),
        has_semi(m),
        !is_meta(c),
    ensures
        decode(seq![m, c]) == seq![after_first_semi(m) + c],
{
    let both = seq![m, c];
    assert(both.skip(1) =~= seq![c]);
    assert(decode(both) == decode_record(after_first_semi(m), seq![c]));
    assert(seq![c].skip(1) =~= Seq::<Seq<u8>>::empty());
    assert(decode_record(after_first_semi(m) + c, Seq::<Seq<u8>>::empty()) == seq![
        after_first_semi(m) + c,
    ]);
}

/// The views of a sequence of byte vectors.
pub open spec fn line_views(lines: Seq<Vec<u8>>) -> Seq<Seq<u8>> {
    lines.map_values(|l: Vec<u8>| l@)
}

/// Finds the first `;` in a line, if any.
fn find_semi(l: &Vec<u8>) -> (r: Option<usize>)
    ensures
        (r matches Some(i) ==> i < l@.len() && l@[i as int] == 59u8 && (forall|j: int|
            0 <= j < i ==> l@[j] != 59u8)),
        r is None ==> !has_semi(l@),
{
    let mut i: usize = 0;
    while i < l.len()
        invariant
            i <= l@.len(),
            forall|j: int| 0 <= j < i ==> l@[j] != 59u8,
        decreases l@.len() - i,
    {
        if l[i] == 59u8 {
            return Some(i);
        }
        i += 1;
    }
    None
}

/// A cursor over the raw lines of a history file, handing out one logical
/// command at a time.
pub struct ZshHistory {
    lines: Vec<Vec<u8>>,
    pos: usize,
}

impl ZshHistory {
    /// The raw lines not yet consumed.
    pub closed spec fn remaining(self) -> Seq<Seq<u8>> {
        line_views(self.lines@).skip(self.pos as int)
    }

    pub closed spec fn wf(self) -> bool {
        self.pos <= self.lines@.len()
    }

    /// Starts a fresh pass over the given raw lines.
    pub fn new(lines: Vec<Vec<u8>>) -> (h: Self)
        ensures
            h.wf(),
            h.remaining() == line_views(lines@),
    {
        let h = ZshHistory { lines, pos: 0 };
        proof {
            assert(h.remaining() =~= line_views(h.lines@));
        }
        h
    }

    /// Hands out the next logical command, or `None` when the lines are
    /// exhausted.  Lines that open no record (orphan continuations, malformed
    /// metadata lines) are consumed silently.
    pub fn next(&mut self) -> (r: Option<Vec<u8>>)
        requires
            old(self).wf(),
        ensures
            final(self).wf(),
            decode(old(self).remaining()).len() == 0 ==> r is None
                && final(self).remaining().len() == 0,
            decode(old(self).remaining()).len() > 0 ==> (r matches Some(c)
                && c@ == decode(old(self).remaining())[0]
                && decode(final(self).remaining()) == decode(old(self).remaining()).skip(1)
                && final(self).remaining().len() < old(self).remaining().len()),
    {
        let ghost orig = *self;
        while self.pos < self.lines.len()
            invariant
                orig == *old(self),
                self.wf(),
                self.lines == orig.lines,
                decode(self.remaining()) == decode(orig.remaining()),
                self.remaining().len() <= orig.remaining().len(),
            decreases self.lines@.len() - self.pos,
        {
            let ghost rem = self.remaining();
            proof {
                assert(rem[0] == self.lines@[self.pos as int]@);
            }
            let line = &self.lines[self.pos];
            let meta = line.len() > 0 && line[0] == 58u8;
            if meta {
                let found = find_semi(line);
                match found {
                    Option::Some(semi) => {
                        proof {
                            assert(is_meta(rem[0]) && has_semi(rem[0]));
                            lemma_after_first_semi_at(rem[0], semi as int);
                            assert(decode(rem) == decode_record(
                                after_first_semi(rem[0]),
                                rem.skip(1),
                            ));
                        }
                        let mut acc = tail_from(line, semi + 1);
                        self.pos += 1;
                        proof {
                            assert(self.remaining() =~= rem.skip(1));
                        }
                        let ghost target = decode(orig.remaining());
                        loop
                            invariant
                                orig == *old(self),
                                target == decode(orig.remaining()),
                                self.wf(),
                                self.lines == orig.lines,
                                decode_record(acc@, self.remaining()) == target,
                                self.remaining().len() <= orig.remaining().len() - 1,
                            ensures
                                self.wf(),
                                self.lines == orig.lines,
                                target == seq![acc@] + decode(self.remaining()),
                                self.remaining().len() <= orig.remaining().len() - 1,
                            decreases self.lines@.len() - self.pos,
                        {
                            if self.pos == self.lines.len() {
                                proof {
                                    assert(self.remaining().len() == 0);
                                    assert(target == seq![acc@]);
                                    assert(seq![acc@] + decode(self.remaining()) =~= seq![acc@]);
                                }
                                break ;
                            }
                            let ghost rem2 = self.remaining();
                            proof {
                                assert(rem2[0] == self.lines@[self.pos as int]@);
                            }
                            let nline = &self.lines[self.pos];
                            let nmeta = nline.len() > 0 && nline[0] == 58u8;
                            if nmeta {
                                proof {
                                    assert(is_meta(rem2[0]));
                                    assert(target == seq![acc@] + decode(rem2));
                                }
                                break ;
                            }
                            proof {
                                assert(!is_meta(rem2[0]));
                                assert(decode_record(acc@, rem2) == decode_record(
                                    acc@ + rem2[0],
                                    rem2.skip(1),
                                ));
                            }
                            extend_bytes(&mut acc, nline);
                            self.pos += 1;
                            proof {
                                assert(self.remaining() =~= rem2.skip(1));
                            }
                        }
                        proof {
                            assert(target[0] == acc@);
                            assert(target.skip(1) =~= decode(self.remaining()));
                        }
                        return Some(acc);
                    },
                    Option::None => {
                        proof {
                            assert(!has_semi(rem[0]));
                            assert(decode(rem) == decode(rem.skip(1)));
                        }
                        self.pos += 1;
                        proof {
                            assert(self.remaining() =~= rem.skip(1));
                        }
                    },
                }
            } else {
                proof {
                    assert(!is_meta(rem[0]));
                    assert(decode(rem) == decode(rem.skip(1)));
                }
                self.pos += 1;
                proof {
                    assert(self.remaining() =~= rem.skip(1));
                }
            }
        }
        assert(self.remaining().len() == 0);
        None
    }
}

} // verus!
