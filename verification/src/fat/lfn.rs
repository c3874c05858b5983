//! Gathering of long file names from the entries that precede a short one.
//!
//! A long file name is stored in a run of directory entries placed just
//! before the short entry it belongs to. The run starts with the entry that
//! holds the last part of the name (its sequence number is the highest) and
//! ends with sequence number one, which holds the first thirteen characters.
//! The visitor encodes each entry's characters as UTF-8 and keeps the bytes
//! of every entry reversed, so that one final reversal of the whole buffer
//! puts the name back in reading order.

use vstd::prelude::*;
use vstd::utf8::*;

use crate::filesystem::{lfn_checksum_of, ShortFileName};

verus! {

broadcast use vstd::utf8::char_is_scalar;

/// Bytes available for the UTF-8 encoding of a gathered name.
pub const LFN_BUFFER_SIZE: usize = 255 * 4;

/// The highest sequence number that may start a run of long name entries.
pub const MAX_LFN_SEQUENCE: u8 = 20;

/// One long file name directory entry, already decoded to characters.
#[allow(missing_docs)]
#[derive(Debug, Copy, Clone, Eq, PartialEq, Ord, PartialOrd)]
pub struct LfnEntry {
    pub is_start: bool,
    pub sequence: u8,
    pub checksum: u8,
    pub buffer: [char; 13],
}

/// What the visitor knows about the run it is gathering.
pub struct LfnProgress {
    /// Sequence number of the last entry taken in.
    pub last_sequence: u8,
    /// Checksum that every entry of the run carries.
    pub checksum: u8,
    /// The characters gathered so far, in reading order.
    pub name: Seq<char>,
}

/// The sequence `s` read backwards.
pub open spec fn reversed<T>(s: Seq<T>) -> Seq<T> {
    Seq::new(s.len(), |i: int| s[s.len() - 1 - i])
}

/// The characters of `chars` before the first NUL, or all of them.
pub open spec fn before_nul(chars: Seq<char>) -> Seq<char>
    decreases chars.len(),
{
    if chars.len() == 0 {
        Seq::empty()
    } else if chars[0] == '\0' {
        Seq::empty()
    } else {
        seq![chars[0]] + before_nul(chars.drop_first())
    }
}

/// The progress after visiting `entry`.
pub open spec fn visit_step(progress: Option<LfnProgress>, entry: LfnEntry) -> Option<LfnProgress> {
    if entry.is_start {
        if entry.sequence > MAX_LFN_SEQUENCE {
            None
        } else {
            Some(
                LfnProgress {
                    last_sequence: entry.sequence,
                    checksum: entry.checksum,
                    name: entry.buffer@,
                },
            )
        }
    } else {
        match progress {
            Some(p) => {
                if p.checksum != entry.checksum || p.last_sequence != entry.sequence + 1 {
                    None
                } else {
                    Some(
                        LfnProgress {
                            last_sequence: (p.last_sequence - 1) as u8,
                            checksum: p.checksum,
                            name: entry.buffer@ + p.name,
                        },
                    )
                }
            },
            None => None,
        }
    }
}

/// Visiting `entry` stays within the buffer and within `u8` arithmetic.
pub open spec fn visit_fits(progress: Option<LfnProgress>, entry: LfnEntry) -> bool {
    &&& (!entry.is_start && progress is Some && progress->0.checksum == entry.checksum)
        ==> entry.sequence < 255
    &&& visit_step(progress, entry) matches Some(p) ==> encode_utf8(p.name).len()
        <= LFN_BUFFER_SIZE
}

/// The name that a complete run yields for a short name whose checksum is
/// `checksum`, if it yields one.
pub open spec fn take_result(progress: Option<LfnProgress>, checksum: u8) -> Option<Seq<char>> {
    match progress {
        Some(p) => {
            if p.last_sequence != 1 || p.checksum != checksum {
                None
            } else {
                Some(before_nul(p.name))
            }
        },
        None => None,
    }
}

/// Gathers a long file name from the entries that precede a short entry.
pub struct LfnVisitor {
    buffer: [u8; LFN_BUFFER_SIZE],
    state: Option<LfnVisitorState>,
}

/// The run being gathered: how much of the buffer it fills, the sequence
/// number expected next and the checksum it carries.
pub struct LfnVisitorState {
    buffer_used: usize,
    last_sequence: u8,
    checksum: u8,
    name: Ghost<Seq<char>>,
}

impl LfnVisitorState {
    /// The progress this state records.
    pub closed spec fn progress(&self) -> LfnProgress {
        LfnProgress { last_sequence: self.last_sequence, checksum: self.checksum, name: self.name@ }
    }

    /// Number of bytes of the buffer in use.
    pub closed spec fn used(&self) -> nat {
        self.buffer_used as nat
    }

    /// The bytes in use are the reversed UTF-8 encoding of the name.
    pub closed spec fn wf_with(&self, buffer: Seq<u8>) -> bool {
        &&& self.buffer_used <= buffer.len()
        &&& buffer.subrange(0, self.buffer_used as int) == reversed(encode_utf8(self.name@))
        &&& self.buffer_used == encode_utf8(self.name@).len()
    }

    /// Appends the UTF-8 encoding of `extension` to the used part of
    /// `buffer`, with the appended bytes in reverse order, and puts the
    /// characters in front of the gathered name.
    pub fn extend_buffer(&mut self, buffer: &mut [u8], extension: &[char])
        requires
            old(self).used() + encode_utf8(extension@).len() <= old(buffer)@.len(),
        ensures
            final(self).used() == old(self).used() + encode_utf8(extension@).len(),
            final(self).progress() == (LfnProgress {
                name: extension@ + old(self).progress().name,
                ..old(self).progress()
            }),
            final(buffer)@.len() == old(buffer)@.len(),
            final(buffer)@.subrange(0, old(self).used() as int) == old(buffer)@.subrange(
                0,
                old(self).used() as int,
            ),
            final(buffer)@.subrange(old(self).used() as int, final(self).used() as int)
                == reversed(encode_utf8(extension@)),
            final(buffer)@.subrange(final(self).used() as int, final(buffer)@.len() as int)
                == old(buffer)@.subrange(final(self).used() as int, old(buffer)@.len() as int),
    {
        let total: usize = buffer.len();
        let start: usize = self.buffer_used;
        let mut used: usize = 0;
        let mut i: usize = 0;
        proof {
            lemma_encode_take_bound(extension@, 0);
            assert(extension@.take(0) =~= Seq::<char>::empty());
        }
        while i < extension.len()
            invariant
                0 <= i <= extension@.len(),
                start == old(self).buffer_used,
                start + encode_utf8(extension@).len() <= old(buffer)@.len(),
                total == old(buffer)@.len(),
                used == encode_utf8(extension@.take(i as int)).len(),
                used <= encode_utf8(extension@).len(),
                buffer@.len() == old(buffer)@.len(),
                buffer@.subrange(start as int, start + used) == encode_utf8(
                    extension@.take(i as int),
                ),
                forall|k: int|
                    0 <= k < buffer@.len() && !(start <= k < start + used) ==> #[trigger] buffer@[k]
                        == old(buffer)@[k],
            decreases extension@.len() - i,
        {
            let c = extension[i];
            proof {
                lemma_encode_take_step(extension@, i as int);
                lemma_encode_take_bound(extension@, i + 1);
            }
            let ghost before = buffer@;
            let n: usize = encode_char_at(buffer, start + used, c);
            proof {
                assert(buffer@.subrange(start as int, start + used + n) =~= before.subrange(
                    start as int,
                    start + used,
                ) + encode_scalar(c as u32));
            }
            used = used + n;
            i = i + 1;
        }
        assert(extension@.take(extension@.len() as int) =~= extension@);
        reverse_range(buffer, start, start + used);
        self.buffer_used = start + used;
        self.name = Ghost(extension@ + self.name@);
        proof {
            assert(buffer@.subrange(0, start as int) =~= old(buffer)@.subrange(0, start as int));
            assert(buffer@.subrange((start + used) as int, buffer@.len() as int)
                =~= old(buffer)@.subrange((start + used) as int, old(buffer)@.len() as int));
        }
    }
}

impl View for LfnVisitor {
    type V = Option<LfnProgress>;

    closed spec fn view(&self) -> Option<LfnProgress> {
        match self.state {
            Some(s) => Some(s.progress()),
            None => None,
        }
    }
}

impl LfnVisitor {
    /// The gathered bytes agree with the gathered name.
    pub closed spec fn wf(&self) -> bool {
        match self.state {
            Some(s) => s.wf_with(self.buffer@),
            None => true,
        }
    }

    /// Takes in the next long file name entry.
    ///
    /// An entry that starts a run (with a sequence number of at most 20)
    /// begins a new name; any other entry must carry the run's checksum and
    /// the sequence number just below the last one, or the run is dropped.
    pub fn visit(&mut self, entry: &LfnEntry)
        requires
            old(self).wf(),
            visit_fits(old(self)@, *entry),
        ensures
            final(self).wf(),
            final(self)@ == visit_step(old(self)@, *entry),
    {
        if entry.is_start {
            if entry.sequence > MAX_LFN_SEQUENCE {
                self.state = None;
            } else {
                let mut state = LfnVisitorState {
                    buffer_used: 0,
                    last_sequence: entry.sequence,
                    checksum: entry.checksum,
                    name: Ghost(Seq::empty()),
                };
                proof {
                    assert(encode_utf8(Seq::<char>::empty()) =~= Seq::<u8>::empty());
                    assert(entry.buffer@ + Seq::<char>::empty() =~= entry.buffer@);
                }
                state.extend_buffer(&mut self.buffer, &entry.buffer);
                proof {
                    assert(self.buffer@.subrange(0, state.buffer_used as int) =~= reversed(
                        encode_utf8(entry.buffer@),
                    ));
                }
                self.state = Some(state);
            }
        } else {
            let ghost old_buffer = self.buffer@;
            match self.state.take() {
                Some(mut state) => {
                    if state.checksum != entry.checksum || state.last_sequence != entry.sequence
                        + 1 {
                        self.state = None;
                    } else {
                        let ghost old_name = state.name@;
                        let ghost old_used = state.buffer_used;
                        proof {
                            lemma_encode_concat(entry.buffer@, old_name);
                        }
                        state.last_sequence = state.last_sequence - 1;
                        state.extend_buffer(&mut self.buffer, &entry.buffer);
                        proof {
                            lemma_reversed_concat(encode_utf8(entry.buffer@), encode_utf8(old_name));
                            assert(self.buffer@.subrange(0, state.buffer_used as int)
                                =~= self.buffer@.subrange(0, old_used as int)
                                + self.buffer@.subrange(old_used as int, state.buffer_used as int));
                            assert(old_buffer.subrange(0, old_used as int) == reversed(
                                encode_utf8(old_name),
                            ));
                        }
                        self.state = Some(state);
                    }
                },
                None => {
                    self.state = None;
                },
            }
        }
    }

    /// Ends the run and yields the gathered name if the run is complete (its
    /// last entry had sequence number one) and belongs to `short_name`. The
    /// name ends at its first NUL character.
    pub fn take(&mut self, short_name: &ShortFileName) -> (name: Option<&str>)
        requires
            old(self).wf(),
        ensures
            final(self).wf(),
            final(self)@ is None,
            match take_result(old(self)@, lfn_checksum_of(short_name.contents@)) {
                Some(expected) => name matches Some(s) && s@ == expected,
                None => name is None,
            },
    {
        match self.state.take() {
            None => None,
            Some(state) => {
                if state.last_sequence != 1 || state.checksum != short_name.lfn_checksum() {
                    None
                } else {
                    let used: usize = state.buffer_used;
                    let ghost encoded = encode_utf8(state.name@);
                    reverse_range(&mut self.buffer, 0, used);
                    proof {
                        assert(reversed(reversed(encoded)) =~= encoded);
                        assert(self.buffer@.subrange(0, used as int) =~= encoded);
                    }
                    let end: usize = first_nul(&self.buffer, used);
                    proof {
                        lemma_before_nul_prefix(state.name@);
                        assert(self.buffer@.subrange(0, end as int) =~= encoded.subrange(0, end as int));
                        encode_utf8_valid_utf8(before_nul(state.name@));
                        encode_utf8_decode_utf8(before_nul(state.name@));
                    }
                    let active = vstd::slice::slice_subrange(self.buffer.as_slice(), 0, end);
                    str_from_utf8(active)
                }
            },
        }
    }
}

impl Default for LfnVisitor {
    /// A visitor that has gathered nothing, with a zeroed buffer.
    fn default() -> (v: Self)
        ensures
            v.wf(),
            v@ is None,
    {
        LfnVisitor { buffer: [0u8; 1020], state: None }
    }
}

/// `core::str::from_utf8`: the bytes read as a string when they are valid
/// UTF-8, and nothing otherwise.
#[verifier::external_body]
fn str_from_utf8(bytes: &[u8]) -> (s: Option<&str>)
    ensures
        s is Some <==> valid_utf8(bytes@),
        s matches Some(s) ==> s@ == decode_utf8(bytes@),
{
    core::str::from_utf8(bytes).ok()
}

/// Writes the UTF-8 encoding of `c` into `buffer` at `at`; returns its length.
fn encode_char_at(buffer: &mut [u8], at: usize, c: char) -> (n: usize)
    requires
        at + encode_scalar(c as u32).len() <= old(buffer)@.len(),
    ensures
        n == encode_scalar(c as u32).len(),
        final(buffer)@.len() == old(buffer)@.len(),
        final(buffer)@.subrange(at as int, at + n) == encode_scalar(c as u32),
        forall|k: int|
            0 <= k < old(buffer)@.len() && !(at <= k < at + n) ==> #[trigger] final(buffer)@[k]
                == old(buffer)@[k],
{
    let v: u32 = c as u32;
    if v <= 0x7F {
        buffer[at] = (v & 0x7F) as u8;
        assert(buffer@.subrange(at as int, at + 1) =~= encode_scalar(v));
        1
    } else if v <= 0x7FF {
        buffer[at] = 0xC0 | ((v >> 6) & 0x1F) as u8;
        buffer[at + 1] = 0x80 | (v & 0x3F) as u8;
        assert(buffer@.subrange(at as int, at + 2) =~= encode_scalar(v));
        2
    } else if v <= 0xFFFF {
        buffer[at] = 0xE0 | ((v >> 12) & 0x0F) as u8;
        buffer[at + 1] = 0x80 | ((v >> 6) & 0x3F) as u8;
        buffer[at + 2] = 0x80 | (v & 0x3F) as u8;
        assert(buffer@.subrange(at as int, at + 3) =~= encode_scalar(v));
        3
    } else {
        buffer[at] = 0xF0 | ((v >> 18) & 0x7) as u8;
        buffer[at + 1] = 0x80 | ((v >> 12) & 0x3F) as u8;
        buffer[at + 2] = 0x80 | ((v >> 6) & 0x3F) as u8;
        buffer[at + 3] = 0x80 | (v & 0x3F) as u8;
        assert(buffer@.subrange(at as int, at + 4) =~= encode_scalar(v));
        4
    }
}

/// Reverses `buffer[from..to]` in place.
fn reverse_range(buffer: &mut [u8], from: usize, to: usize)
    requires
        from <= to <= old(buffer)@.len(),
    ensures
        final(buffer)@.len() == old(buffer)@.len(),
        final(buffer)@.subrange(from as int, to as int) == reversed(
            old(buffer)@.subrange(from as int, to as int),
        ),
        forall|k: int|
            0 <= k < old(buffer)@.len() && !(from <= k < to) ==> #[trigger] final(buffer)@[k]
                == old(buffer)@[k],
{
    let mut i: usize = from;
    let mut j: usize = to;
    while j - i > 1
        invariant
            from <= i <= j <= to,
            i - from == to - j,
            buffer@.len() == old(buffer)@.len(),
            to <= buffer@.len(),
            forall|k: int| from <= k < i ==> #[trigger] buffer@[k] == old(buffer)@[to - 1 - (k - from)],
            forall|k: int| j <= k < to ==> #[trigger] buffer@[k] == old(buffer)@[from + (to - 1 - k)],
            forall|k: int|
                0 <= k < buffer@.len() && !(from <= k < i) && !(j <= k < to) ==> #[trigger] buffer@[k]
                    == old(buffer)@[k],
        decreases j - i,
    {
        let x: u8 = buffer[i];
        let y: u8 = buffer[j - 1];
        buffer[i] = y;
        buffer[j - 1] = x;
        i = i + 1;
        j = j - 1;
    }
    assert(buffer@.subrange(from as int, to as int) =~= reversed(
        old(buffer)@.subrange(from as int, to as int),
    ));
}

/// Position of the first zero byte among the first `len` bytes, or `len`.
fn first_nul(buffer: &[u8; LFN_BUFFER_SIZE], len: usize) -> (end: usize)
    requires
        len <= LFN_BUFFER_SIZE,
    ensures
        end <= len,
        end == first_zero(buffer@.subrange(0, len as int)),
{
    let mut i: usize = 0;
    while i < len
        invariant
            0 <= i <= len <= LFN_BUFFER_SIZE,
            forall|k: int| 0 <= k < i ==> buffer@[k] != 0,
        decreases len - i,
    {
        if buffer[i] == 0 {
            proof {
                lemma_first_zero_at(buffer@.subrange(0, len as int), i as int);
            }
            return i;
        }
        i = i + 1;
    }
    proof {
        lemma_first_zero_at(buffer@.subrange(0, len as int), len as int);
    }
    len
}

/// Position of the first zero byte of `bytes`, or its length.
pub open spec fn first_zero(bytes: Seq<u8>) -> int
    decreases bytes.len(),
{
    if bytes.len() == 0 {
        0
    } else if bytes[0] == 0 {
        0
    } else {
        1 + first_zero(bytes.drop_first())
    }
}

proof fn lemma_first_zero_at(bytes: Seq<u8>, i: int)
    requires
        0 <= i <= bytes.len(),
        forall|k: int| 0 <= k < i ==> bytes[k] != 0,
        i == bytes.len() || bytes[i] == 0,
    ensures
        first_zero(bytes) == i,
    decreases bytes.len(),
{
    if bytes.len() == 0 || i == 0 {
    } else {
        assert(bytes[0] != 0);
        lemma_first_zero_at(bytes.drop_first(), i - 1);
    }
}

proof fn lemma_encode_concat(a: Seq<char>, b: Seq<char>)
    ensures
        encode_utf8(a + b) == encode_utf8(a) + encode_utf8(b),
    decreases a.len(),
{
    if a.len() == 0 {
        assert(a + b =~= b);
        assert(encode_utf8(a) =~= Seq::<u8>::empty());
        assert(encode_utf8(a) + encode_utf8(b) =~= encode_utf8(b));
    } else {
        lemma_encode_concat(a.drop_first(), b);
        assert((a + b).drop_first() =~= a.drop_first() + b);
        assert((a + b)[0] == a[0]);
        assert(encode_utf8(a + b) =~= encode_utf8(a) + encode_utf8(b));
    }
}

proof fn lemma_encode_take_step(s: Seq<char>, i: int)
    requires
        0 <= i < s.len(),
    ensures
        encode_utf8(s.take(i + 1)) == encode_utf8(s.take(i)) + encode_scalar(s[i] as u32),
{
    assert(s.take(i + 1) =~= s.take(i) + seq![s[i]]);
    lemma_encode_concat(s.take(i), seq![s[i]]);
    assert(seq![s[i]].drop_first() =~= Seq::<char>::empty());
    assert(encode_utf8(Seq::<char>::empty()) =~= Seq::<u8>::empty());
    assert(encode_utf8(seq![s[i]]) =~= encode_scalar(s[i] as u32));
}

proof fn lemma_encode_take_bound(s: Seq<char>, i: int)
    requires
        0 <= i <= s.len(),
    ensures
        encode_utf8(s.take(i)).len() <= encode_utf8(s).len(),
{
    assert(s =~= s.take(i) + s.skip(i));
    lemma_encode_concat(s.take(i), s.skip(i));
}

proof fn lemma_reversed_concat<T>(a: Seq<T>, b: Seq<T>)
    ensures
        reversed(a + b) == reversed(b) + reversed(a),
{
    assert(reversed(a + b) =~= reversed(b) + reversed(a));
}

/// A non-NUL character never encodes to a zero byte; NUL encodes to one.
proof fn lemma_scalar_zero_bytes(c: char)
    ensures
        c == '\0' ==> encode_scalar(c as u32) == seq![0u8],
        c != '\0' ==> forall|k: int|
            0 <= k < encode_scalar(c as u32).len() ==> #[trigger] encode_scalar(c as u32)[k] != 0,
{
    let v: u32 = c as u32;
    if c == '\0' {
        assert(v == 0);
        assert((0u32 & 0x7Fu32) as u8 == 0u8) by (bit_vector);
        assert(encode_scalar(v) =~= seq![0u8]);
    } else {
        assert(v != 0);
        assert(v != 0 && v <= 0x7F ==> (v & 0x7F) as u8 != 0) by (bit_vector);
        assert(forall|x: u32| (0x80u8 | (x & 0x3F) as u8) != 0) by (bit_vector);
        assert(forall|x: u32| (0x80u8 | ((x >> 6) & 0x3F) as u8) != 0) by (bit_vector);
        assert(forall|x: u32| (0x80u8 | ((x >> 12) & 0x3F) as u8) != 0) by (bit_vector);
        assert(forall|x: u32| (0xC0u8 | ((x >> 6) & 0x1F) as u8) != 0) by (bit_vector);
        assert(forall|x: u32| (0xE0u8 | ((x >> 12) & 0x0F) as u8) != 0) by (bit_vector);
        assert(forall|x: u32| (0xF0u8 | ((x >> 18) & 0x7) as u8) != 0) by (bit_vector);
    }
}

/// The bytes before the first zero byte of an encoding are the encoding of
/// the characters before the first NUL.
proof fn lemma_before_nul_prefix(chars: Seq<char>)
    ensures
        0 <= first_zero(encode_utf8(chars)) <= encode_utf8(chars).len(),
        encode_utf8(chars).subrange(0, first_zero(encode_utf8(chars))) == encode_utf8(
            before_nul(chars),
        ),
    decreases chars.len(),
{
    let bytes = encode_utf8(chars);
    if chars.len() == 0 {
        assert(bytes =~= Seq::<u8>::empty());
        assert(bytes.subrange(0, 0) =~= Seq::<u8>::empty());
    } else {
        let c = chars[0];
        let head = encode_scalar(c as u32);
        let rest = encode_utf8(chars.drop_first());
        assert(bytes == head + rest);
        lemma_scalar_zero_bytes(c);
        if c == '\0' {
            assert(bytes[0] == 0);
            assert(bytes.subrange(0, 0) =~= Seq::<u8>::empty());
            assert(encode_utf8(Seq::<char>::empty()) =~= Seq::<u8>::empty());
        } else {
            lemma_before_nul_prefix(chars.drop_first());
            lemma_first_zero_skip(head, rest);
            lemma_encode_concat(seq![c], before_nul(chars.drop_first()));
            assert(seq![c].drop_first() =~= Seq::<char>::empty());
            assert(encode_utf8(Seq::<char>::empty()) =~= Seq::<u8>::empty());
            assert(encode_utf8(seq![c]) =~= head);
            assert(bytes.subrange(0, first_zero(bytes)) =~= head + rest.subrange(
                0,
                first_zero(rest),
            ));
        }
    }
}

proof fn lemma_first_zero_skip(head: Seq<u8>, rest: Seq<u8>)
    requires
        forall|k: int| 0 <= k < head.len() ==> #[trigger] head[k] != 0,
    ensures
        first_zero(head + rest) == head.len() + first_zero(rest),
    decreases head.len(),
{
    if head.len() == 0 {
        assert(head + rest =~= rest);
    } else {
        assert((head + rest).drop_first() =~= head.drop_first() + rest);
        assert(head[0] != 0);
        lemma_first_zero_skip(head.drop_first(), rest);
    }
}

/// The progress after visiting `entries` in order.
pub open spec fn visit_all(progress: Option<LfnProgress>, entries: Seq<LfnEntry>) -> Option<
    LfnProgress,
>
    decreases entries.len(),
{
    if entries.len() == 0 {
        progress
    } else {
        visit_all(visit_step(progress, entries[0]), entries.drop_first())
    }
}

/// Whether `entries` is a complete run of long name entries for a short
/// name with checksum `checksum`: it starts with the entry marked as the
/// start, whose sequence number is the number of entries (at most 20), the
/// sequence numbers then count down to one, and every entry carries the
/// checksum.
pub open spec fn is_complete_run(entries: Seq<LfnEntry>, checksum: u8) -> bool {
    &&& 1 <= entries.len() <= MAX_LFN_SEQUENCE
    &&& entries[0].is_start
    &&& forall|i: int|
        0 <= i < entries.len() ==> #[trigger] entries[i].sequence == entries.len() - i
            && entries[i].checksum == checksum
    &&& forall|i: int| 1 <= i < entries.len() ==> !#[trigger] entries[i].is_start
}

/// The characters of a run in reading order: those of its last entry
/// first, those of its first entry last.
pub open spec fn run_name(entries: Seq<LfnEntry>) -> Seq<char>
    decreases entries.len(),
{
    if entries.len() == 0 {
        Seq::empty()
    } else {
        run_name(entries.drop_first()) + entries[0].buffer@
    }
}

proof fn lemma_visit_all_push(progress: Option<LfnProgress>, entries: Seq<LfnEntry>, e: LfnEntry)
    ensures
        visit_all(progress, entries.push(e)) == visit_step(visit_all(progress, entries), e),
    decreases entries.len(),
{
    if entries.len() == 0 {
        assert(entries.push(e).drop_first() =~= Seq::<LfnEntry>::empty());
        assert(entries.push(e)[0] == e);
        assert(visit_all(visit_step(progress, e), Seq::<LfnEntry>::empty()) == visit_step(progress, e));
    } else {
        assert(entries.push(e).drop_first() =~= entries.drop_first().push(e));
        assert(entries.push(e)[0] == entries[0]);
        lemma_visit_all_push(visit_step(progress, entries[0]), entries.drop_first(), e);
    }
}

proof fn lemma_run_name_push(entries: Seq<LfnEntry>, e: LfnEntry)
    ensures
        run_name(entries.push(e)) == e.buffer@ + run_name(entries),
    decreases entries.len(),
{
    if entries.len() == 0 {
        assert(entries.push(e).drop_first() =~= Seq::<LfnEntry>::empty());
        assert(entries.push(e)[0] == e);
        assert(run_name(Seq::<LfnEntry>::empty()) =~= Seq::<char>::empty());
        assert(run_name(entries.push(e)) =~= e.buffer@ + run_name(entries));
    } else {
        assert(entries.push(e).drop_first() =~= entries.drop_first().push(e));
        assert(entries.push(e)[0] == entries[0]);
        lemma_run_name_push(entries.drop_first(), e);
        assert(run_name(entries.push(e)) =~= e.buffer@ + run_name(entries));
    }
}

/// Visiting the first `k` entries of a complete run gathers their
/// characters in reading order and expects sequence number `n - k` next.
proof fn lemma_run_prefix(progress: Option<LfnProgress>, entries: Seq<LfnEntry>, checksum: u8, k: int)
    requires
        is_complete_run(entries, checksum),
        1 <= k <= entries.len(),
    ensures
        visit_all(progress, entries.take(k)) == Some(
            LfnProgress {
                last_sequence: (entries.len() - k + 1) as u8,
                checksum,
                name: run_name(entries.take(k)),
            },
        ),
    decreases k,
{
    if k == 1 {
        let e = entries[0];
        assert(entries.take(1) =~= seq![e]);
        assert(seq![e].drop_first() =~= Seq::<LfnEntry>::empty());
        assert(run_name(Seq::<LfnEntry>::empty()) =~= Seq::<char>::empty());
        assert(run_name(seq![e]) =~= e.buffer@);
        assert(visit_all(visit_step(progress, e), Seq::<LfnEntry>::empty()) == visit_step(progress, e));
    } else {
        lemma_run_prefix(progress, entries, checksum, k - 1);
        let e = entries[k - 1];
        assert(entries.take(k) =~= entries.take(k - 1).push(e));
        lemma_visit_all_push(progress, entries.take(k - 1), e);
        lemma_run_name_push(entries.take(k - 1), e);
    }
}

/// A complete run of long name entries, visited in order, yields its name
/// in reading order, up to its first NUL, to `take` for a short name whose
/// checksum the run carries; whatever was gathered before is dropped.
pub proof fn law_complete_run_yields_name(
    progress: Option<LfnProgress>,
    entries: Seq<LfnEntry>,
    checksum: u8,
)
    requires
        is_complete_run(entries, checksum),
    ensures
        take_result(visit_all(progress, entries), checksum) == Some(before_nul(run_name(entries))),
{
    lemma_run_prefix(progress, entries, checksum, entries.len() as int);
    assert(entries.take(entries.len() as int) =~= entries);
}

/// A run whose last entry is missing yields no name.
pub proof fn law_incomplete_run_yields_nothing(
    progress: Option<LfnProgress>,
    entries: Seq<LfnEntry>,
    checksum: u8,
)
    requires
        is_complete_run(entries, checksum),
        entries.len() >= 2,
    ensures
        take_result(visit_all(progress, entries.drop_last()), checksum) is None,
{
    let n = entries.len();
    lemma_run_prefix(progress, entries, checksum, n - 1);
    assert(entries.take(n - 1) =~= entries.drop_last());
}

/// Whether every character of `entry` has a UTF-8 encoding of at most
/// three bytes, as every character that a volume stores (in UCS-2) has.
pub open spec fn has_narrow_chars(entry: LfnEntry) -> bool {
    forall|i: int| 0 <= i < 13 ==> (#[trigger] entry.buffer@[i] as u32) < 0x10000
}

/// Whether a run gathered from entries of narrow characters keeps within
/// its bound: its next sequence number is at most 20, and its name takes at
/// most 39 bytes for each of the (at most 21) entries taken in.
pub open spec fn gathered_within(progress: Option<LfnProgress>) -> bool {
    match progress {
        None => true,
        Some(p) => p.last_sequence <= MAX_LFN_SEQUENCE && encode_utf8(p.name).len() <= 39 * (21
            - p.last_sequence),
    }
}

proof fn lemma_narrow_len(s: Seq<char>)
    requires
        forall|i: int| 0 <= i < s.len() ==> (#[trigger] s[i] as u32) < 0x10000,
    ensures
        encode_utf8(s).len() <= 3 * s.len(),
    decreases s.len(),
{
    if s.len() > 0 {
        assert forall|i: int| 0 <= i < s.drop_first().len() implies (#[trigger] s.drop_first()[i] as u32)
            < 0x10000 by {
            assert(s.drop_first()[i] == s[i + 1]);
        }
        lemma_narrow_len(s.drop_first());
        char_is_scalar(s[0]);
        assert((s[0] as u32) < 0x10000);
        assert(encode_scalar(s[0] as u32).len() <= 3);
    }
}

/// Visiting an entry of narrow characters keeps a gathered run within its
/// bound, and so within the buffer: the bound never exceeds 819 of the
/// buffer's 1020 bytes. The sequence arithmetic cannot overflow either,
/// unless an entry that continues the run carries sequence number 255.
pub proof fn law_visit_within_buffer(progress: Option<LfnProgress>, entry: LfnEntry)
    requires
        gathered_within(progress),
        has_narrow_chars(entry),
        entry.is_start || entry.sequence < 255,
    ensures
        visit_fits(progress, entry),
        gathered_within(visit_step(progress, entry)),
{
    lemma_narrow_len(entry.buffer@);
    if !entry.is_start {
        if let Some(p) = progress {
            if p.checksum == entry.checksum && p.last_sequence == entry.sequence + 1 {
                lemma_encode_concat(entry.buffer@, p.name);
            }
        }
    }
}

proof fn lemma_prefix_within(entries: Seq<LfnEntry>, k: int)
    requires
        0 <= k <= entries.len(),
        forall|i: int|
            0 <= i < entries.len() ==> has_narrow_chars(#[trigger] entries[i]) && (entries[i].is_start
                || entries[i].sequence < 255),
    ensures
        gathered_within(visit_all(None, entries.take(k))),
    decreases k,
{
    if k == 0 {
        assert(entries.take(0) =~= Seq::<LfnEntry>::empty());
    } else {
        lemma_prefix_within(entries, k - 1);
        assert(entries.take(k) =~= entries.take(k - 1).push(entries[k - 1]));
        lemma_visit_all_push(None, entries.take(k - 1), entries[k - 1]);
        law_visit_within_buffer(visit_all(None, entries.take(k - 1)), entries[k - 1]);
    }
}

/// A fresh visitor (whose progress is none) takes in any series of
/// entries of narrow characters, in which no entry that continues a run
/// carries sequence number 255, without ever overflowing its buffer or its
/// sequence arithmetic: every visit meets what `visit` requires.
pub proof fn law_visits_fit(entries: Seq<LfnEntry>)
    requires
        forall|i: int|
            0 <= i < entries.len() ==> has_narrow_chars(#[trigger] entries[i]) && (entries[i].is_start
                || entries[i].sequence < 255),
    ensures
        forall|k: int|
            0 <= k < entries.len() ==> visit_fits(
                #[trigger] visit_all(None, entries.take(k)),
                entries[k],
            ),
{
    assert forall|k: int| 0 <= k < entries.len() implies visit_fits(
        #[trigger] visit_all(None, entries.take(k)),
        entries[k],
    ) by {
        lemma_prefix_within(entries, k);
        law_visit_within_buffer(visit_all(None, entries.take(k)), entries[k]);
    }
}

proof fn lemma_before_nul_is_nul_free_prefix(chars: Seq<char>)
    ensures
        before_nul(chars).len() <= chars.len(),
        forall|i: int|
            0 <= i < before_nul(chars).len() ==> #[trigger] before_nul(chars)[i] == chars[i]
                && chars[i] != '\0',
        before_nul(chars).len() < chars.len() ==> chars[before_nul(chars).len() as int] == '\0',
    decreases chars.len(),
{
    if chars.len() > 0 && chars[0] != '\0' {
        let rest = chars.drop_first();
        lemma_before_nul_is_nul_free_prefix(rest);
        let b = before_nul(chars);
        assert(b == seq![chars[0]] + before_nul(rest));
        assert forall|i: int| 0 <= i < b.len() implies #[trigger] b[i] == chars[i] && chars[i]
            != '\0' by {
            if i > 0 {
                assert(b[i] == before_nul(rest)[i - 1]);
                assert(rest[i - 1] == chars[i]);
            }
        }
        if b.len() < chars.len() {
            assert(rest[before_nul(rest).len() as int] == chars[b.len() as int]);
        }
    }
}

/// `take` hands out a name only for a gathered run that is complete (its
/// last entry taken in carried sequence number one) and carries the short
/// name's checksum; the name is then what the run gathered, in reading
/// order, up to (and without) its first NUL.
pub proof fn law_take_needs_complete_matching_run(progress: Option<LfnProgress>, checksum: u8)
    ensures
        take_result(progress, checksum) is Some ==> progress is Some && progress->0.checksum
            == checksum && progress->0.last_sequence == 1,
        take_result(progress, checksum) matches Some(n) ==> ({
            let gathered = progress->0.name;
            &&& n.len() <= gathered.len()
            &&& forall|i: int| 0 <= i < n.len() ==> #[trigger] n[i] == gathered[i] && n[i] != '\0'
            &&& n.len() < gathered.len() ==> gathered[n.len() as int] == '\0'
        }),
        progress matches Some(p) && p.checksum == checksum && p.last_sequence == 1 ==> take_result(
            progress,
            checksum,
        ) is Some,
{
    if let Some(p) = progress {
        lemma_before_nul_is_nul_free_prefix(p.name);
    }
}

} // verus!
