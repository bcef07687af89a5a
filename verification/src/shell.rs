use vstd::prelude::*;
use vstd::utf8::{decode_utf8, valid_utf8};

use crate::text::{str_chars, str_from_utf8, string_from_chars};

verus! {

/// The most bytes a command line holds.
pub const MAXBUF: usize = 512;

/// The most arguments a command holds.
pub const MAXARG: usize = 64;

/// Line feed: ends the line.
pub const GR: u8 = 0x0A;

/// Carriage return: ends the line.
pub const GN: u8 = 0x0D;

/// Backspace.
pub const BS: u8 = 0x08;

/// Delete.
pub const DE: u8 = 0x7F;

/// Bell.
pub const BE: u8 = 0x07;

/// Escape.
pub const ESC: u8 = 0x1B;

/// Moves the cursor to the start of the line.
pub const CTRL_A: u8 = 0x01;

/// Moves the cursor back.
pub const CTRL_B: u8 = 0x02;

/// Deletes the byte under the cursor.
pub const CTRL_D: u8 = 0x04;

/// Moves the cursor to the end of the line.
pub const CTRL_E: u8 = 0x05;

/// Moves the cursor forward.
pub const CTRL_F: u8 = 0x06;

/// Deletes from the cursor to the end of the line.
pub const CTRL_K: u8 = 0x0b;

/// Recalls the next line of the history.
pub const CTRL_N: u8 = 0x0e;

/// Recalls the previous line of the history.
pub const CTRL_P: u8 = 0x10;

/// Clears the line.
pub const CTRL_U: u8 = 0x15;

/// How much of an escape sequence the editor has read.
#[derive(Copy, Clone, Debug, PartialEq, Eq, Structural)]
pub enum EscMode {
    /// No escape sequence is pending.
    Normal,
    /// An ESC byte was read.
    Escape,
    /// ESC and `[` were read.
    Bracket,
}

/// `n` copies of byte `b`.
pub open spec fn rep(b: u8, n: int) -> Seq<u8> {
    Seq::new(n as nat, |i: int| b)
}

/// `n` copies of the three bytes `a`, `b`, `c`.
pub open spec fn rep3(a: u8, b: u8, c: u8, n: int) -> Seq<u8> {
    Seq::new(
        (3 * n) as nat,
        |i: int|
            if i % 3 == 0 {
                a
            } else if i % 3 == 1 {
                b
            } else {
                c
            },
    )
}

/// The terminal sequence that moves the cursor `n` columns right.
pub open spec fn right(n: int) -> Seq<u8> {
    rep3(ESC, 0x5b, 0x43, n)
}

/// The terminal sequence that erases `n` columns left of the cursor.
pub open spec fn erase(n: int) -> Seq<u8> {
    rep3(BS, 0x20, BS, n)
}

/// A byte that the editor inserts into a line: space to `~`.
pub open spec fn printable(b: u8) -> bool {
    0x20 <= b <= 0x7e
}

/// Every byte of `s` is printable.
pub open spec fn all_printable(s: Seq<u8>) -> bool {
    forall|i: int| 0 <= i < s.len() ==> printable(#[trigger] s[i])
}

/// The state of the line editor: the line, the cursor, the history entry
/// shown, the escape sequence read so far, and the capacity of the line's
/// buffer (a full buffer takes no more bytes).
pub type EditState = (Seq<u8>, int, int, EscMode, int);

/// Recalling history entry `w` in state `st`: the line is erased and
/// replaced by the entry, with the cursor at its end; the buffer, a copy of
/// the entry with room reserved up to `MAXBUF` bytes, then has capacity
/// `rc`.
pub open spec fn recall(st: EditState, hist: Seq<Seq<u8>>, w: int, rc: int) -> (
    EditState,
    Seq<u8>,
    bool,
) {
    (
        (hist[w], hist[w].len() as int, w, EscMode::Normal, rc),
        erase(st.0.len() as int) + hist[w],
        false,
    )
}

/// The history entry that input byte `b` recalls in state `st`, if any.
pub open spec fn recall_target(st: EditState, hist: Seq<Seq<u8>>, b: u8) -> Option<int> {
    let (buf, c, w, mode, cap) = st;
    match mode {
        EscMode::Escape => None,
        EscMode::Bracket => if b == 0x44 || b == 0x43 {
            None
        } else if b == 0x41 && w > 0 {
            Some(w - 1)
        } else if b == 0x42 && w + 1 < hist.len() {
            Some(w + 1)
        } else {
            None
        },
        EscMode::Normal => if b == GR || b == GN || ((b == BS || b == DE) && c > 0) || buf.len()
            == cap || printable(b) {
            None
        } else if b == CTRL_N && w + 1 < hist.len() {
            Some(w + 1)
        } else if b == CTRL_P && w > 0 {
            Some(w - 1)
        } else {
            None
        },
    }
}

/// What one input byte does to the editor: the next state, the bytes echoed
/// to the terminal, and whether the line is finished; `rc` is the capacity
/// the buffer has after recalling a history entry.
pub open spec fn edit(st: EditState, hist: Seq<Seq<u8>>, b: u8, rc: int) -> (
    EditState,
    Seq<u8>,
    bool,
) {
    let (buf, c, w, mode, cap) = st;
    let len = buf.len() as int;
    let same = (buf, c, w, EscMode::Normal, cap);
    let bell = (same, seq![BE], false);
    match mode {
        EscMode::Escape => {
            if b == 0x5b {
                ((buf, c, w, EscMode::Bracket, cap), Seq::empty(), false)
            } else {
                bell
            }
        },
        EscMode::Bracket => {
            if b == 0x44 {
                if c > 0 {
                    ((buf, c - 1, w, EscMode::Normal, cap), seq![BS], false)
                } else {
                    (same, Seq::empty(), false)
                }
            } else if b == 0x43 {
                if c < len {
                    ((buf, c + 1, w, EscMode::Normal, cap), right(1), false)
                } else {
                    (same, Seq::empty(), false)
                }
            } else if b == 0x41 && w > 0 {
                recall(st, hist, w - 1, rc)
            } else if b == 0x42 && w + 1 < hist.len() {
                recall(st, hist, w + 1, rc)
            } else {
                bell
            }
        },
        EscMode::Normal => {
            if b == GR || b == GN {
                (same, seq![0x0a], true)
            } else if (b == BS || b == DE) && c > 0 {
                let nb = buf.remove(c - 1);
                (
                    (nb, c - 1, w, EscMode::Normal, cap),
                    seq![BS] + nb.subrange(c - 1, nb.len() as int) + seq![0x20u8] + rep(
                        BS,
                        nb.len() + 1 - (c - 1),
                    ),
                    false,
                )
            } else if len == cap {
                bell
            } else if printable(b) {
                let nb = buf.insert(c, b);
                (
                    (nb, c + 1, w, EscMode::Normal, cap),
                    nb.subrange(c, nb.len() as int) + rep(BS, nb.len() - (c + 1)),
                    false,
                )
            } else if b == CTRL_A {
                ((buf, 0, w, EscMode::Normal, cap), rep(BS, c), false)
            } else if b == CTRL_B {
                if c > 0 {
                    ((buf, c - 1, w, EscMode::Normal, cap), seq![BS], false)
                } else {
                    (same, Seq::empty(), false)
                }
            } else if b == CTRL_D {
                if c == len {
                    (same, Seq::empty(), false)
                } else {
                    let nb = buf.remove(c);
                    (
                        (nb, c, w, EscMode::Normal, cap),
                        nb.subrange(c, nb.len() as int) + seq![0x20u8, BS] + rep(BS, nb.len() - c),
                        false,
                    )
                }
            } else if b == CTRL_E {
                ((buf, len, w, EscMode::Normal, cap), right(len - c), false)
            } else if b == CTRL_F {
                if c < len {
                    ((buf, c + 1, w, EscMode::Normal, cap), right(1), false)
                } else {
                    (same, Seq::empty(), false)
                }
            } else if b == CTRL_K {
                ((buf.subrange(0, c), c, w, EscMode::Normal, cap), seq![ESC, 0x5bu8, 0x4bu8], false)
            } else if b == CTRL_N {
                if w + 1 < hist.len() {
                    recall(st, hist, w + 1, rc)
                } else {
                    (same, Seq::empty(), false)
                }
            } else if b == CTRL_P {
                if w > 0 {
                    recall(st, hist, w - 1, rc)
                } else {
                    (same, Seq::empty(), false)
                }
            } else if b == CTRL_U {
                ((Seq::empty(), 0, w, EscMode::Normal, cap), right(len - c) + erase(len), false)
            } else if b == ESC {
                ((buf, c, w, EscMode::Escape, cap), Seq::empty(), false)
            } else {
                bell
            }
        },
    }
}

/// The editor state is sound for a history of `hist_len` entries: the cursor
/// lies in the line, the line holds printable bytes and fits the buffer's
/// capacity, and the history entry shown is at most `hist_len`.
pub open spec fn edit_wf(st: EditState, hist_len: int) -> bool {
    &&& 0 <= st.1 <= st.0.len() <= st.4
    &&& all_printable(st.0)
    &&& 0 <= st.2 <= hist_len
}

/// A history the editor can recall from: each entry is printable bytes.
pub open spec fn history_wf(hist: Seq<Seq<u8>>) -> bool {
    forall|i: int| 0 <= i < hist.len() ==> all_printable(#[trigger] hist[i])
}

/// Appends `n` copies of `b` to `out`.
fn push_rep(out: &mut Vec<u8>, b: u8, n: usize)
    ensures
        final(out)@ == old(out)@ + rep(b, n as int),
{
    let ghost start = out@;
    let mut i: usize = 0;
    while i < n
        invariant
            i <= n,
            out@ == start + rep(b, i as int),
        decreases n - i,
    {
        out.push(b);
        i = i + 1;
        proof {
            assert(out@ =~= start + rep(b, i as int));
        }
    }
}

/// Appends `n` copies of the three bytes `a`, `b`, `c` to `out`.
fn push_rep3(out: &mut Vec<u8>, a: u8, b: u8, c: u8, n: usize)
    ensures
        final(out)@ == old(out)@ + rep3(a, b, c, n as int),
{
    let ghost start = out@;
    let mut i: usize = 0;
    while i < n
        invariant
            i <= n,
            out@ == start + rep3(a, b, c, i as int),
        decreases n - i,
    {
        out.push(a);
        out.push(b);
        out.push(c);
        i = i + 1;
        proof {
            assert(out@ =~= start + rep3(a, b, c, i as int));
        }
    }
}

/// Appends `src[from..]` to `out`.
fn push_tail(out: &mut Vec<u8>, src: &Vec<u8>, from: usize)
    requires
        from <= src@.len(),
    ensures
        final(out)@ == old(out)@ + src@.subrange(from as int, src@.len() as int),
{
    let ghost start = out@;
    let mut i = from;
    while i < src.len()
        invariant
            from <= i <= src@.len(),
            out@ == start + src@.subrange(from as int, i as int),
        decreases src@.len() - i,
    {
        out.push(src[i]);
        i = i + 1;
        proof {
            assert(out@ =~= start + src@.subrange(from as int, i as int));
        }
    }
}

/// The line editor that reads a command, one input byte at a time.
#[derive(Debug)]
pub struct LineEditor {
    buf: Vec<u8>,
    cursor: usize,
    which_hist: usize,
    mode: EscMode,
    cap: usize,
}

/// `Vec::capacity`: the number of elements `v` can hold without
/// reallocating, which is at least its length. How much more depends on the
/// allocator and on how `Vec` grows, and is not stated.
#[verifier::external_body]
fn buffer_capacity(v: &Vec<u8>) -> (c: usize)
    ensures
        c >= v@.len(),
{
    v.capacity()
}

impl View for LineEditor {
    type V = EditState;

    closed spec fn view(&self) -> EditState {
        (self.buf@, self.cursor as int, self.which_hist as int, self.mode, self.cap as int)
    }
}

impl LineEditor {
    /// An empty line in a buffer of `MAXBUF` bytes, showing no history
    /// entry, for a history of `hist_len` entries.
    pub fn new(hist_len: usize) -> (e: LineEditor)
        ensures
            e@ == (Seq::<u8>::empty(), 0int, hist_len as int, EscMode::Normal, MAXBUF as int),
    {
        LineEditor {
            buf: Vec::with_capacity(MAXBUF),
            cursor: 0,
            which_hist: hist_len,
            mode: EscMode::Normal,
            cap: MAXBUF,
        }
    }

    /// The capacity of the line's buffer: the line takes no more bytes once
    /// it is that long.
    pub fn capacity(&self) -> (c: usize)
        ensures
            c == self@.4,
    {
        self.cap
    }

    /// The line so far.
    pub fn line(&self) -> (l: &Vec<u8>)
        ensures
            l@ == self@.0,
    {
        &self.buf
    }

    /// The cursor's position in the line.
    pub fn cursor(&self) -> (c: usize)
        ensures
            c == self@.1,
    {
        self.cursor
    }

    /// Replaces the line by history entry `w` and echoes the change: the
    /// buffer becomes a copy of the entry with room reserved up to `MAXBUF`
    /// bytes.
    fn recall_entry(&mut self, history: &Vec<Vec<u8>>, w: usize, out: &mut Vec<u8>)
        requires
            w < history@.len(),
            history@[w as int]@.len() <= MAXBUF,
        ensures
            final(self)@.4 >= final(self)@.0.len(),
            (final(self)@, old(out)@ + recall(
                old(self)@,
                history@.map_values(|v: Vec<u8>| v@),
                w as int,
                final(self)@.4,
            ).1) == (
                recall(old(self)@, history@.map_values(|v: Vec<u8>| v@), w as int, final(self)@.4).0,
                final(out)@,
            ),
    {
        self.which_hist = w;
        push_rep3(out, BS, 0x20, BS, self.buf.len());
        self.buf = history[w].clone();
        proof {
            assert(self.buf@ =~= history@[w as int]@);
        }
        let n = self.buf.len();
        self.buf.reserve(MAXBUF - n);
        self.cap = buffer_capacity(&self.buf);
        push_tail(out, &self.buf, 0);
        proof {
            assert(self.buf@.subrange(0, n as int) =~= self.buf@);
        }
        self.cursor = n;
        self.mode = EscMode::Normal;
    }

    /// Feeds one input byte to the editor: returns the bytes to echo to the
    /// terminal, and whether the line is finished, as `edit` states, where a
    /// recalled entry leaves the buffer with the capacity the editor then
    /// reports. An entry to recall is at most `MAXBUF` bytes long (room up to
    /// `MAXBUF` bytes is reserved for it).
    pub fn step(&mut self, history: &Vec<Vec<u8>>, b: u8) -> (r: (Vec<u8>, bool))
        requires
            edit_wf(old(self)@, history@.len() as int),
            recall_target(old(self)@, history@.map_values(|v: Vec<u8>| v@), b) matches Some(w)
                ==> history@[w]@.len() <= MAXBUF,
        ensures
            (final(self)@, r.0@, r.1) == edit(
                old(self)@,
                history@.map_values(|v: Vec<u8>| v@),
                b,
                final(self)@.4,
            ),
            final(self)@.4 >= final(self)@.0.len(),
    {
        let ghost hist = history@.map_values(|v: Vec<u8>| v@);
        let mut out: Vec<u8> = Vec::new();
        match self.mode {
            EscMode::Escape => {
                if b == 0x5b {
                    self.mode = EscMode::Bracket;
                } else {
                    self.mode = EscMode::Normal;
                    out.push(BE);
                }
                proof {
                    assert(out@ =~= edit(old(self)@, hist, b, self@.4).1);
                }
                return (out, false);
            },
            EscMode::Bracket => {
                self.mode = EscMode::Normal;
                if b == 0x44 {
                    if self.cursor > 0 {
                        out.push(BS);
                        self.cursor = self.cursor - 1;
                    }
                } else if b == 0x43 {
                    if self.cursor < self.buf.len() {
                        push_rep3(&mut out, ESC, 0x5b, 0x43, 1);
                        self.cursor = self.cursor + 1;
                    }
                } else if b == 0x41 && self.which_hist > 0 {
                    self.recall_entry(history, self.which_hist - 1, &mut out);
                } else if b == 0x42 && history.len() > 0 && self.which_hist < history.len() - 1 {
                    self.recall_entry(history, self.which_hist + 1, &mut out);
                } else {
                    out.push(BE);
                }
                proof {
                    assert(out@ =~= edit(old(self)@, hist, b, self@.4).1);
                }
                return (out, false);
            },
            EscMode::Normal => {},
        }
        let len = self.buf.len();
        if b == GR || b == GN {
            out.push(0x0a);
            proof {
                assert(out@ =~= edit(old(self)@, hist, b, self@.4).1);
            }
            return (out, true);
        } else if (b == BS || b == DE) && self.cursor > 0 {
            self.cursor = self.cursor - 1;
            self.buf.remove(self.cursor);
            out.push(BS);
            push_tail(&mut out, &self.buf, self.cursor);
            out.push(0x20);
            push_rep(&mut out, BS, self.buf.len() + 1 - self.cursor);
        } else if len == self.cap {
            out.push(BE);
        } else if 0x20 <= b && b <= 0x7e {
            self.buf.insert(self.cursor, b);
            push_tail(&mut out, &self.buf, self.cursor);
            self.cursor = self.cursor + 1;
            push_rep(&mut out, BS, self.buf.len() - self.cursor);
        } else if b == CTRL_A {
            push_rep(&mut out, BS, self.cursor);
            self.cursor = 0;
        } else if b == CTRL_B {
            if self.cursor > 0 {
                out.push(BS);
                self.cursor = self.cursor - 1;
            }
        } else if b == CTRL_D {
            if self.cursor != len {
                self.buf.remove(self.cursor);
                push_tail(&mut out, &self.buf, self.cursor);
                out.push(0x20);
                out.push(BS);
                push_rep(&mut out, BS, self.buf.len() - self.cursor);
            }
        } else if b == CTRL_E {
            push_rep3(&mut out, ESC, 0x5b, 0x43, len - self.cursor);
            self.cursor = len;
        } else if b == CTRL_F {
            if self.cursor < len {
                push_rep3(&mut out, ESC, 0x5b, 0x43, 1);
                self.cursor = self.cursor + 1;
            }
        } else if b == CTRL_K {
            out.push(ESC);
            out.push(0x5b);
            out.push(0x4b);
            self.buf.truncate(self.cursor);
        } else if b == CTRL_N {
            if history.len() > 0 && self.which_hist < history.len() - 1 {
                self.recall_entry(history, self.which_hist + 1, &mut out);
            }
        } else if b == CTRL_P {
            if self.which_hist > 0 {
                self.recall_entry(history, self.which_hist - 1, &mut out);
            }
        } else if b == CTRL_U {
            push_rep3(&mut out, ESC, 0x5b, 0x43, len - self.cursor);
            push_rep3(&mut out, BS, 0x20, BS, len);
            self.buf.clear();
            self.cursor = 0;
        } else if b == ESC {
            self.mode = EscMode::Escape;
        } else {
            out.push(BE);
        }
        proof {
            assert(out@ =~= edit(old(self)@, hist, b, self@.4).1);
            assert(self@.0 =~= edit(old(self)@, hist, b, self@.4).0.0);
        }
        (out, false)
    }

    /// The history entry that input byte `b` recalls, if any, as
    /// `recall_target` states.
    pub fn recall_target(&self, history: &Vec<Vec<u8>>, b: u8) -> (r: Option<usize>)
        ensures
            r matches Some(w) ==> recall_target(self@, history@.map_values(|v: Vec<u8>| v@), b)
                == Some(w as int),
            r is None ==> recall_target(self@, history@.map_values(|v: Vec<u8>| v@), b) is None,
    {
        let w = self.which_hist;
        let n = history.len();
        match self.mode {
            EscMode::Escape => None,
            EscMode::Bracket => {
                if b == 0x44 || b == 0x43 {
                    None
                } else if b == 0x41 && w > 0 {
                    Some(w - 1)
                } else if b == 0x42 && n > 0 && w < n - 1 {
                    Some(w + 1)
                } else {
                    None
                }
            },
            EscMode::Normal => {
                if b == GR || b == GN || ((b == BS || b == DE) && self.cursor > 0) || self.buf.len()
                    == self.cap || (0x20 <= b && b <= 0x7e) {
                    None
                } else if b == CTRL_N && n > 0 && w < n - 1 {
                    Some(w + 1)
                } else if b == CTRL_P && w > 0 {
                    Some(w - 1)
                } else {
                    None
                }
            },
        }
    }

    /// Ends the line: the line joins the history and is returned as text (the
    /// empty string when it is not valid UTF-8, which a line of printable
    /// bytes always is).
    pub fn finish(self, history: &mut Vec<Vec<u8>>) -> (s: String)
        ensures
            final(history)@.map_values(|v: Vec<u8>| v@) == old(history)@.map_values(
                |v: Vec<u8>| v@,
            ).push(self@.0),
            s@ == if valid_utf8(self@.0) {
                decode_utf8(self@.0)
            } else {
                Seq::<char>::empty()
            },
    {
        history.push(self.buf.clone());
        proof {
            assert(history@.last()@ =~= self.buf@);
            assert(history@.map_values(|v: Vec<u8>| v@) =~= old(history)@.map_values(
                |v: Vec<u8>| v@,
            ).push(self@.0));
        }
        match str_from_utf8(self.buf.as_slice()) {
            Ok(s) => s.to_owned(),
            Err(_) => String::new(),
        }
    }
}

/// The editor after the escape sequence `ESC [ key`, fed one byte at a
/// time in state `st`; `rc` is the capacity a recall leaves the buffer.
pub open spec fn after_arrow(st: EditState, hist: Seq<Seq<u8>>, key: u8, rc: int) -> (
    EditState,
    Seq<u8>,
    bool,
) {
    edit(edit(edit(st, hist, ESC, rc).0, hist, 0x5b, rc).0, hist, key, rc)
}

/// The arrow keys walk the history: from a line that is not full, the up
/// arrow `ESC [ A` shows the next older entry (index one lower) and the down
/// arrow `ESC [ B` the next newer one (index one higher), erasing the line
/// shown and echoing the entry, with the cursor at its end; with no such
/// entry the bell rings and the line stays.
pub proof fn lemma_arrows_walk_history(st: EditState, hist: Seq<Seq<u8>>, rc: int)
    requires
        st.3 == EscMode::Normal,
        st.0.len() < st.4,
        0 <= st.2 <= hist.len(),
    ensures
        st.2 > 0 ==> {
            let (ns, out, done) = after_arrow(st, hist, 0x41, rc);
            &&& ns.0 == hist[st.2 - 1]
            &&& ns.1 == hist[st.2 - 1].len()
            &&& ns.2 == st.2 - 1
            &&& out == erase(st.0.len() as int) + hist[st.2 - 1]
            &&& !done
        },
        st.2 + 1 < hist.len() ==> {
            let (ns, out, done) = after_arrow(st, hist, 0x42, rc);
            &&& ns.0 == hist[st.2 + 1]
            &&& ns.1 == hist[st.2 + 1].len()
            &&& ns.2 == st.2 + 1
            &&& out == erase(st.0.len() as int) + hist[st.2 + 1]
            &&& !done
        },
        st.2 == 0 ==> after_arrow(st, hist, 0x41, rc).1 == seq![BE] && after_arrow(
            st,
            hist,
            0x41,
            rc,
        ).0.0 == st.0,
        st.2 + 1 >= hist.len() ==> after_arrow(st, hist, 0x42, rc).1 == seq![BE] && after_arrow(
            st,
            hist,
            0x42,
            rc,
        ).0.0 == st.0,
{
}

/// `CTRL_P` and `CTRL_N` walk the history as the arrows do: from a line
/// that is not full, `CTRL_P` shows the next older entry and `CTRL_N` the
/// next newer one, erasing the line shown and echoing the entry, with the
/// cursor at its end; with no such entry nothing happens.
pub proof fn lemma_ctrl_keys_walk_history(st: EditState, hist: Seq<Seq<u8>>, rc: int)
    requires
        st.3 == EscMode::Normal,
        st.0.len() < st.4,
        0 <= st.1 <= st.0.len(),
        0 <= st.2 <= hist.len(),
    ensures
        st.2 > 0 ==> {
            let (ns, out, done) = edit(st, hist, CTRL_P, rc);
            &&& ns.0 == hist[st.2 - 1]
            &&& ns.1 == hist[st.2 - 1].len()
            &&& ns.2 == st.2 - 1
            &&& out == erase(st.0.len() as int) + hist[st.2 - 1]
            &&& !done
        },
        st.2 + 1 < hist.len() ==> {
            let (ns, out, done) = edit(st, hist, CTRL_N, rc);
            &&& ns.0 == hist[st.2 + 1]
            &&& ns.1 == hist[st.2 + 1].len()
            &&& ns.2 == st.2 + 1
            &&& out == erase(st.0.len() as int) + hist[st.2 + 1]
            &&& !done
        },
        st.2 == 0 ==> edit(st, hist, CTRL_P, rc) == ((st.0, st.1, st.2, st.3, st.4), Seq::<u8>::empty(), false),
        st.2 + 1 >= hist.len() ==> edit(st, hist, CTRL_N, rc) == ((st.0, st.1, st.2, st.3, st.4), Seq::<u8>::empty(), false),
{
}

/// Down undoes up: after the up arrow from entry `w`, the down arrow shows
/// entry `w` again (when the recalled line leaves room in the buffer).
pub proof fn lemma_down_undoes_up(st: EditState, hist: Seq<Seq<u8>>, rc1: int, rc2: int)
    requires
        st.3 == EscMode::Normal,
        st.0.len() < st.4,
        0 < st.2 < hist.len(),
        hist[st.2 - 1].len() < rc1,
    ensures
        after_arrow(after_arrow(st, hist, 0x41, rc1).0, hist, 0x42, rc2).0.0 == hist[st.2],
        after_arrow(after_arrow(st, hist, 0x41, rc1).0, hist, 0x42, rc2).0.2 == st.2,
{
    lemma_arrows_walk_history(st, hist, rc1);
    let up = after_arrow(st, hist, 0x41, rc1).0;
    assert(up.3 == EscMode::Normal && up.4 == rc1);
    lemma_arrows_walk_history(up, hist, rc2);
}

/// Each input byte keeps the editor state sound: the cursor stays in the
/// line, and the line stays printable and within the buffer's capacity
/// (after a recall, a capacity that holds the entry recalled).
pub proof fn lemma_edit_keeps_wf(st: EditState, hist: Seq<Seq<u8>>, b: u8, rc: int)
    requires
        edit_wf(st, hist.len() as int),
        history_wf(hist),
        recall_target(st, hist, b) matches Some(w) ==> rc >= hist[w].len(),
    ensures
        edit_wf(edit(st, hist, b, rc).0, hist.len() as int),
{
    let (buf, c, w, mode, cap) = st;
    let nst = edit(st, hist, b, rc).0;
    if mode == EscMode::Normal && (b == BS || b == DE) && c > 0 {
        assert forall|i: int| 0 <= i < nst.0.len() implies printable(#[trigger] nst.0[i]) by {
            if i < c - 1 {
                assert(nst.0[i] == buf[i]);
            } else {
                assert(nst.0[i] == buf[i + 1]);
            }
        }
    } else if mode == EscMode::Normal && !(b == GR || b == GN) && buf.len() < cap && printable(
        b,
    ) {
        assert forall|i: int| 0 <= i < nst.0.len() implies printable(#[trigger] nst.0[i]) by {
            if i < c {
                assert(nst.0[i] == buf[i]);
            } else if i > c {
                assert(nst.0[i] == buf[i - 1]);
            }
        }
    } else if mode == EscMode::Normal && b == CTRL_D && c < buf.len() && buf.len() < cap {
        assert forall|i: int| 0 <= i < nst.0.len() implies printable(#[trigger] nst.0[i]) by {
            if i < c {
                assert(nst.0[i] == buf[i]);
            } else {
                assert(nst.0[i] == buf[i + 1]);
            }
        }
    }
}


/// The words of `cs`: its maximal runs of characters other than space, in
/// order.
pub open spec fn words(cs: Seq<char>) -> Seq<Seq<char>>
    decreases cs.len(),
{
    if cs.len() == 0 {
        Seq::empty()
    } else {
        let w = words(cs.drop_last());
        if cs.last() == ' ' {
            w
        } else if cs.len() > 1 && cs[cs.len() - 2] != ' ' {
            w.update(w.len() - 1, w.last().push(cs.last()))
        } else {
            w.push(seq![cs.last()])
        }
    }
}

/// Why a command line was refused.
#[derive(Copy, Clone, Debug, PartialEq, Eq, Structural)]
pub enum Error {
    /// The line holds no word.
    Empty,
    /// The line holds more than `MAXARG` words.
    TooManyArgs,
}

/// A command: its words, the first being the command's path.
#[derive(Debug)]
pub struct Command {
    args: Vec<String>,
}

/// The built-in commands of the shell.
#[derive(Copy, Clone, Debug, PartialEq, Eq, Structural)]
pub enum Builtin {
    Echo,
    Pwd,
    Cd,
    Ls,
    Cat,
    Allocator,
    Sleep,
    Kill,
    Unknown,
}

/// The built-in command named `path`.
pub open spec fn builtin_named(path: Seq<char>) -> Builtin {
    if path == "echo"@ {
        Builtin::Echo
    } else if path == "pwd"@ {
        Builtin::Pwd
    } else if path == "cd"@ {
        Builtin::Cd
    } else if path == "ls"@ {
        Builtin::Ls
    } else if path == "cat"@ {
        Builtin::Cat
    } else if path == "allocator"@ {
        Builtin::Allocator
    } else if path == "sleep"@ {
        Builtin::Sleep
    } else if path == "kill"@ {
        Builtin::Kill
    } else {
        Builtin::Unknown
    }
}

/// Which directory `ls` lists.
#[derive(Debug)]
pub enum LsTarget {
    /// The current directory.
    Cwd,
    /// The path joined onto the current directory.
    Joined(String),
    /// The path as given, from the root directory.
    Given(String),
}

/// What a command that takes one number as its argument (`sleep`, `kill`)
/// is asked to do.
#[derive(Copy, Clone, Debug, PartialEq, Eq, Structural)]
pub enum NumberArg {
    /// The argument is missing.
    Missing,
    /// The argument is not a `u32`.
    Wrong,
    /// There is more than one argument.
    TooMany,
    /// The argument is this number.
    Run(u32),
}

/// The decimal value of a sequence of digits.
pub open spec fn decimal(ds: Seq<char>) -> nat
    decreases ds.len(),
{
    if ds.len() == 0 {
        0
    } else {
        decimal(ds.drop_last()) * 10 + (ds.last() as nat - '0' as nat) as nat
    }
}

/// `c` is an ASCII digit.
pub open spec fn is_digit(c: char) -> bool {
    '0' <= c <= '9'
}

/// The digits of an unsigned number: the text without one leading `+`.
pub open spec fn unsigned_digits(cs: Seq<char>) -> Seq<char> {
    if cs.len() > 0 && cs[0] == '+' {
        cs.drop_first()
    } else {
        cs
    }
}

/// The `u32` that `cs` spells as `str::parse` reads it: an optional `+`, then
/// one or more ASCII digits, of value at most `u32::MAX`.
pub open spec fn parsed_u32(cs: Seq<char>) -> Option<u32> {
    let ds = unsigned_digits(cs);
    if ds.len() > 0 && (forall|i: int| 0 <= i < ds.len() ==> is_digit(#[trigger] ds[i]))
        && decimal(ds) <= u32::MAX {
        Some(decimal(ds) as u32)
    } else {
        None
    }
}

/// The text `echo` prints: each argument after the path followed by a space,
/// then a newline.
pub open spec fn echo_text(args: Seq<Seq<char>>) -> Seq<char>
    decreases args.len(),
{
    if args.len() <= 1 {
        seq!['\n']
    } else {
        echo_text(args.drop_last()).drop_last() + args.last() + seq![' ', '\n']
    }
}

/// Whether two character vectors are equal.
fn chars_eq(a: &Vec<char>, b: &Vec<char>) -> (r: bool)
    ensures
        r == (a@ == b@),
{
    if a.len() != b.len() {
        return false;
    }
    let mut i: usize = 0;
    while i < a.len()
        invariant
            a@.len() == b@.len(),
            i <= a@.len(),
            forall|j: int| 0 <= j < i ==> a@[j] == b@[j],
        decreases a@.len() - i,
    {
        if a[i] != b[i] {
            return false;
        }
        i = i + 1;
    }
    proof {
        assert(a@ =~= b@);
    }
    true
}

/// Whether `s` spells the text `lit`.
fn is_word(s: &String, lit: &str) -> (r: bool)
    ensures
        r == (s@ == lit@),
{
    let a = str_chars(s.as_str());
    let b = str_chars(lit);
    chars_eq(&a, &b)
}

/// The `u32` that `s` spells, as `str::parse` reads it.
pub fn parse_u32(s: &str) -> (r: Option<u32>)
    ensures
        r == parsed_u32(s@),
{
    let cs = str_chars(s);
    let mut i: usize = 0;
    if cs.len() > 0 && cs[0] == '+' {
        i = 1;
    }
    let ghost off = i as int;
    let ghost ds = unsigned_digits(cs@);
    proof {
        assert(ds =~= cs@.subrange(off, cs@.len() as int));
        assert(unsigned_digits(s@) == ds);
    }
    if i >= cs.len() {
        return None;
    }
    let mut value: u32 = 0;
    while i < cs.len()
        invariant
            ds == cs@.subrange(off, cs@.len() as int),
            0 <= off <= i <= cs@.len(),
            unsigned_digits(s@) == ds,
            cs@ == s@,
            value == decimal(ds.subrange(0, i - off)),
            forall|j: int| 0 <= j < i - off ==> is_digit(#[trigger] ds[j]),
        decreases cs@.len() - i,
    {
        let c = cs[i];
        if !('0' <= c && c <= '9') {
            proof {
                assert(ds[i - off] == c);
                assert(!is_digit(ds[i - off]));
                assert(!(forall|j: int| 0 <= j < ds.len() ==> is_digit(#[trigger] ds[j])));
                assert(parsed_u32(s@) is None);
            }
            return None;
        }
        let digit = (c as u32) - ('0' as u32);
        proof {
            let d = i - off;
            assert(ds[d] == c);
            assert(ds.subrange(0, d + 1).drop_last() =~= ds.subrange(0, d));
            assert(decimal(ds.subrange(0, d + 1)) == value * 10 + digit);
        }
        if value > 429496729 || (value == 429496729 && digit > 5) {
            proof {
                let d = i - off;
                assert(decimal(ds.subrange(0, d + 1)) > u32::MAX);
                if forall|j: int| 0 <= j < ds.len() ==> is_digit(#[trigger] ds[j]) {
                    lemma_decimal_prefix_le(ds, d + 1);
                }
                assert(parsed_u32(s@) is None);
            }
            return None;
        }
        value = value * 10 + digit;
        i = i + 1;
    }
    proof {
        assert(ds.subrange(0, i - off) =~= ds);
    }
    Some(value)
}

/// A longer run of digits never has a smaller value.
proof fn lemma_decimal_prefix_le(ds: Seq<char>, n: int)
    requires
        0 <= n <= ds.len(),
        forall|j: int| 0 <= j < ds.len() ==> is_digit(#[trigger] ds[j]),
    ensures
        decimal(ds.subrange(0, n)) <= decimal(ds),
    decreases ds.len() - n,
{
    if n < ds.len() {
        lemma_decimal_prefix_le(ds, n + 1);
        assert(ds.subrange(0, n + 1).drop_last() =~= ds.subrange(0, n));
        assert(is_digit(ds[n]));
    } else {
        assert(ds.subrange(0, n) =~= ds);
    }
}

impl Command {
    /// The words of the command.
    pub closed spec fn spec_args(&self) -> Seq<Seq<char>> {
        self.args@.map_values(|s: String| s@)
    }

    #[verifier::type_invariant]
    closed spec fn command_invariant(self) -> bool {
        1 <= self.args@.len() <= MAXARG
    }

    /// Parses a command from the line `s`: its words are the maximal runs of
    /// characters other than space.
    ///
    /// Returns `Empty` when `s` holds no word, and `TooManyArgs` when it holds
    /// more than `MAXARG`.
    pub fn parse(s: &str) -> (r: Result<Command, Error>)
        ensures
            words(s@).len() == 0 ==> r == Err::<Command, Error>(Error::Empty),
            words(s@).len() > MAXARG ==> r == Err::<Command, Error>(Error::TooManyArgs),
            1 <= words(s@).len() <= MAXARG ==> (r matches Ok(cmd) && cmd.spec_args() == words(
                s@,
            )),
    {
        let cs = str_chars(s);
        let mut ws: Vec<Vec<char>> = Vec::new();
        let mut i: usize = 0;
        while i < cs.len()
            invariant
                i <= cs@.len(),
                ws@.map_values(|w: Vec<char>| w@) == words(cs@.subrange(0, i as int)),
            decreases cs@.len() - i,
        {
            let c = cs[i];
            let ghost pre = cs@.subrange(0, i as int);
            let ghost post = cs@.subrange(0, i + 1);
            proof {
                assert(post.drop_last() =~= pre);
            }
            if c == ' ' {
            } else if i > 0 && cs[i - 1] != ' ' {
                proof {
                    lemma_words_nonempty(pre);
                    assert(pre.last() == cs@[i - 1]);
                }
                let last = ws.len() - 1;
                ws[last].push(c);
                proof {
                    assert(ws@.map_values(|w: Vec<char>| w@) =~= words(post));
                }
            } else {
                let mut w: Vec<char> = Vec::new();
                w.push(c);
                ws.push(w);
                proof {
                    assert(ws@.map_values(|w: Vec<char>| w@) =~= words(post));
                }
            }
            i = i + 1;
        }
        proof {
            assert(cs@.subrange(0, cs@.len() as int) =~= cs@);
        }
        if ws.len() == 0 {
            return Err(Error::Empty);
        }
        if ws.len() > MAXARG {
            return Err(Error::TooManyArgs);
        }
        let mut args: Vec<String> = Vec::new();
        let mut j: usize = 0;
        while j < ws.len()
            invariant
                j <= ws@.len(),
                args@.len() == j,
                forall|k: int| 0 <= k < j ==> (#[trigger] args@[k])@ == ws@[k]@,
            decreases ws@.len() - j,
        {
            args.push(string_from_chars(ws[j].as_slice()));
            j = j + 1;
        }
        proof {
            assert(args@.map_values(|s: String| s@) =~= ws@.map_values(|w: Vec<char>| w@));
        }
        Ok(Command { args })
    }

    /// The command's words.
    pub fn args(&self) -> (a: &Vec<String>)
        ensures
            a@.map_values(|s: String| s@) == self.spec_args(),
    {
        &self.args
    }

    /// Returns this command's path. This is equivalent to the first argument.
    pub fn path(&self) -> (p: &str)
        ensures
            p@ == self.spec_args()[0],
    {
        proof {
            use_type_invariant(self);
        }
        self.args[0].as_str()
    }

    /// The built-in command this command's path names.
    pub fn builtin(&self) -> (b: Builtin)
        ensures
            b == builtin_named(self.spec_args()[0]),
    {
        proof {
            use_type_invariant(self);
        }
        let p = &self.args[0];
        if is_word(p, "echo") {
            Builtin::Echo
        } else if is_word(p, "pwd") {
            Builtin::Pwd
        } else if is_word(p, "cd") {
            Builtin::Cd
        } else if is_word(p, "ls") {
            Builtin::Ls
        } else if is_word(p, "cat") {
            Builtin::Cat
        } else if is_word(p, "allocator") {
            Builtin::Allocator
        } else if is_word(p, "sleep") {
            Builtin::Sleep
        } else if is_word(p, "kill") {
            Builtin::Kill
        } else {
            Builtin::Unknown
        }
    }

    /// What `echo` prints for this command: each argument after the path
    /// followed by a space, then a newline.
    pub fn echo_text(&self) -> (s: String)
        ensures
            s@ == echo_text(self.spec_args()),
    {
        proof {
            use_type_invariant(self);
        }
        let ghost a = self.spec_args();
        let mut out: Vec<char> = Vec::new();
        let mut i: usize = 1;
        proof {
            assert(a.subrange(0, 1).len() == 1);
            assert(echo_text(a.subrange(0, 1)) =~= seq!['\n']);
        }
        while i < self.args.len()
            invariant
                1 <= i <= a.len(),
                a == self.spec_args(),
                out@.push('\n') == echo_text(a.subrange(0, i as int)),
            decreases a.len() - i,
        {
            let w = str_chars(self.args[i].as_str());
            let mut j: usize = 0;
            let ghost start = out@;
            while j < w.len()
                invariant
                    j <= w@.len(),
                    out@ == start + w@.subrange(0, j as int),
                decreases w@.len() - j,
            {
                out.push(w[j]);
                j = j + 1;
                proof {
                    assert(out@ =~= start + w@.subrange(0, j as int));
                }
            }
            out.push(' ');
            proof {
                assert(a.subrange(0, i + 1).drop_last() =~= a.subrange(0, i as int));
                assert(w@.subrange(0, w@.len() as int) =~= w@);
                assert(echo_text(a.subrange(0, i as int)).drop_last() =~= start);
                assert(out@.push('\n') =~= echo_text(a.subrange(0, i + 1)));
            }
            i = i + 1;
        }
        out.push('\n');
        proof {
            assert(a.subrange(0, a.len() as int) =~= a);
        }
        string_from_chars(out.as_slice())
    }

    /// What `sleep` and `kill` are asked to do: they take exactly one `u32`
    /// argument.
    pub fn number_arg(&self) -> (r: NumberArg)
        ensures
            r == if self.spec_args().len() == 1 {
                NumberArg::Missing
            } else if self.spec_args().len() == 2 {
                match parsed_u32(self.spec_args()[1]) {
                    Some(x) => NumberArg::Run(x),
                    None => NumberArg::Wrong,
                }
            } else {
                NumberArg::TooMany
            },
    {
        proof {
            use_type_invariant(self);
        }
        if self.args.len() == 1 {
            NumberArg::Missing
        } else if self.args.len() == 2 {
            match parse_u32(self.args[1].as_str()) {
                Some(x) => NumberArg::Run(x),
                None => NumberArg::Wrong,
            }
        } else {
            NumberArg::TooMany
        }
    }

    /// The one argument of `cd`; `None` unless the command has exactly one.
    pub fn single_arg(&self) -> (r: Option<&String>)
        ensures
            match r {
                Some(a) => self.spec_args().len() == 2 && a@ == self.spec_args()[1],
                None => self.spec_args().len() != 2,
            },
    {
        if self.args.len() == 2 {
            Some(&self.args[1])
        } else {
            None
        }
    }

    /// What `ls` is asked to list: `-a` (first or second argument) lists
    /// every entry; a path other than `-a` joins the current directory,
    /// except after `-a`, where it is taken as given. `None` on any other
    /// form: more than two arguments, or two of which none is `-a`.
    pub fn ls_plan(&self) -> (r: Option<(bool, LsTarget)>)
        ensures
            ({
                let a = self.spec_args();
                let dash_a = seq!['-', 'a'];
                if a.len() == 1 {
                    r matches Some((all, LsTarget::Cwd)) && !all
                } else if a.len() == 2 {
                    if a[1] == dash_a {
                        r matches Some((all, LsTarget::Cwd)) && all
                    } else {
                        r matches Some((all, LsTarget::Joined(p))) && !all && p@ == a[1]
                    }
                } else if a.len() == 3 {
                    if a[1] == dash_a {
                        r matches Some((all, LsTarget::Given(p))) && all && p@ == a[2]
                    } else if a[2] == dash_a {
                        r matches Some((all, LsTarget::Joined(p))) && all && p@ == a[1]
                    } else {
                        r is None
                    }
                } else {
                    r is None
                }
            }),
    {
        proof {
            use_type_invariant(self);
            reveal_strlit("-a");
            assert("-a"@ =~= seq!['-', 'a']);
        }
        let n: usize = self.args.len();
        if n == 1 {
            Some((false, LsTarget::Cwd))
        } else if n == 2 {
            if is_word(&self.args[1], "-a") {
                Some((true, LsTarget::Cwd))
            } else {
                Some((false, LsTarget::Joined(self.args[1].clone())))
            }
        } else if n == 3 {
            if is_word(&self.args[1], "-a") {
                Some((true, LsTarget::Given(self.args[2].clone())))
            } else if is_word(&self.args[2], "-a") {
                Some((true, LsTarget::Joined(self.args[1].clone())))
            } else {
                None
            }
        } else {
            None
        }
    }

    /// Whether the command has no argument besides its name, as `ps` asks.
    pub fn no_args(&self) -> (b: bool)
        ensures
            b == (self.spec_args().len() == 1),
    {
        self.args.len() == 1
    }
}

proof fn lemma_words_nonempty(cs: Seq<char>)
    requires
        cs.len() > 0,
        cs.last() != ' ',
    ensures
        words(cs).len() > 0,
    decreases cs.len(),
{
    if cs.len() > 1 && cs[cs.len() - 2] != ' ' {
        lemma_words_nonempty(cs.drop_last());
    }
}

} // verus!
