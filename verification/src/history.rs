//! The deterministic replay transport: answers the protocol engine from a
//! recorded table of request/response exchanges instead of a live adapter.

use vstd::prelude::*;
use crate::framing::{CR, LF};
use crate::transport::{Error, Transport};
use crate::util::{append_bytes, bytes_eq, clone_bytes, starts_with, subvec};
use crate::decode::{lines_of, split_into_lines};

verus! {

/// A vector read out endlessly in order: element 0, 1, ..., last, 0, ...
pub struct CircularBuffer<T> {
    data: Vec<T>,
    index: usize,
}

impl<T> CircularBuffer<T> {
    /// The recorded elements, oldest first.
    pub closed spec fn items(&self) -> Seq<T> {
        self.data@
    }

    /// The position the next `get` hands out.
    pub closed spec fn cursor(&self) -> int {
        self.index as int
    }

    /// The cursor stays inside the data, or at zero when there is none.
    pub open spec fn well_formed(&self) -> bool {
        if self.items().len() == 0 {
            self.cursor() == 0
        } else {
            0 <= self.cursor() < self.items().len()
        }
    }

    pub fn new(data: Vec<T>) -> (r: CircularBuffer<T>)
        ensures
            r.items() == data@,
            r.cursor() == 0,
            r.well_formed(),
    {
        CircularBuffer { data, index: 0 }
    }

    /// Hands out the element under the cursor and advances the cursor one
    /// step, wrapping around at the end; `None` when nothing was recorded.
    /// (A cursor that somehow left the data is first wrapped back into it,
    /// so the method asks nothing of its caller.)
    pub fn get(&mut self) -> (r: Option<&T>)
        ensures
            final(self).items() == old(self).items(),
            old(self).items().len() == 0 ==> r is None && *final(self) == *old(self),
            old(self).items().len() > 0 ==> (r matches Some(x)
                && *x == old(self).items()[old(self).cursor() % (old(self).items().len() as int)]
                && final(self).cursor() == (old(self).cursor() % (old(self).items().len() as int) + 1)
                    % (old(self).items().len() as int)),
            old(self).well_formed() ==> final(self).well_formed(),
            old(self).well_formed() && old(self).items().len() > 0 ==> (r matches Some(x)
                && *x == old(self).items()[old(self).cursor()]
                && final(self).cursor() == (old(self).cursor() + 1) % (old(self).items().len() as int)),
    {
        if self.data.len() == 0 {
            None
        } else {
            let pos = self.index % self.data.len();
            proof {
                if old(self).well_formed() {
                    vstd::arithmetic::div_mod::lemma_small_mod(
                        old(self).cursor() as nat,
                        old(self).items().len() as nat,
                    );
                }
            }
            let result = &self.data[pos];
            self.index = (pos + 1) % self.data.len();
            Some(result)
        }
    }
}

/// The replay transport's state as mathematics: for each recorded write key
/// its responses and the round-robin cursor, the partially accumulated
/// write, the bytes still to be handed out by `read`, and the synthetic
/// clock.
#[verifier::ext_equal]
pub struct HistoryModel {
    pub table: Map<Seq<u8>, (Seq<Seq<u8>>, int)>,
    pub pending_write: Seq<u8>,
    pub next_response: Seq<u8>,
    pub clock: int,
}

/// Whether a byte sequence ends with the carriage-return/line-feed pair that
/// closes one written command.
pub open spec fn spec_ends_with_crlf(data: Seq<u8>) -> bool {
    data.len() >= 2 && data[data.len() - 2] == CR && data[data.len() - 1] == LF
}

/// What one `write` call does to the replay transport: a chunk without the
/// closing CRLF is only remembered; a chunk with it closes the key (what was
/// remembered followed by this chunk), which either picks the next recorded
/// response for that key (true) or fails (false), in both cases clearing the
/// remembered bytes.
pub open spec fn write_transition(pre: HistoryModel, data: Seq<u8>) -> (HistoryModel, bool) {
    if !spec_ends_with_crlf(data) {
        (HistoryModel { pending_write: data, ..pre }, true)
    } else {
        let key = pre.pending_write + data;
        if pre.table.contains_key(key) && pre.table[key].0.len() > 0 {
            let resps = pre.table[key].0;
            let cursor = pre.table[key].1;
            (
                HistoryModel {
                    table: pre.table.insert(key, (resps, (cursor + 1) % (resps.len() as int))),
                    pending_write: Seq::empty(),
                    next_response: resps[cursor],
                    clock: pre.clock,
                },
                true,
            )
        } else {
            (HistoryModel { pending_write: Seq::empty(), ..pre }, false)
        }
    }
}

/// The model of one recorded entry: the responses as byte sequences and the
/// round-robin cursor.
pub open spec fn entry_model(cb: CircularBuffer<Vec<u8>>) -> (Seq<Seq<u8>>, int) {
    (cb.items().map_values(|v: Vec<u8>| v@), cb.cursor())
}

/// The lookup table described by an association list, later entries taking
/// precedence (the keys are unique in a well-formed `History`, so precedence
/// never matters).
pub open spec fn table_model(entries: Seq<(Vec<u8>, CircularBuffer<Vec<u8>>)>) -> Map<
    Seq<u8>,
    (Seq<Seq<u8>>, int),
>
    decreases entries.len(),
{
    if entries.len() == 0 {
        Map::empty()
    } else {
        table_model(entries.drop_last()).insert(
            entries.last().0@,
            entry_model(entries.last().1),
        )
    }
}

/// A transport that answers each written command from a recorded table,
/// round-robin per key, with no live connection behind it. Time is a
/// synthetic millisecond counter advanced by `sleep_ms`, which keeps
/// timeout behaviour deterministic.
pub struct History {
    responses: Vec<(Vec<u8>, CircularBuffer<Vec<u8>>)>,
    write_data: Vec<u8>,
    next_response: Vec<u8>,
    clock_ms: u64,
    log: Ghost<Seq<u8>>,
}

impl View for History {
    type V = HistoryModel;

    closed spec fn view(&self) -> HistoryModel {
        HistoryModel {
            table: table_model(self.responses@),
            pending_write: self.write_data@,
            next_response: self.next_response@,
            clock: self.clock_ms as int,
        }
    }
}

/// Pairwise distinct keys in an association list.
pub open spec fn distinct_keys(entries: Seq<(Vec<u8>, CircularBuffer<Vec<u8>>)>) -> bool {
    forall|i: int, j: int|
        0 <= i < j < entries.len() ==> (#[trigger] entries[i]).0@ != (#[trigger] entries[j]).0@
}

/// In a list of distinct keys, the table holds exactly entry `i` under its
/// key.
proof fn lemma_table_model_lookup(entries: Seq<(Vec<u8>, CircularBuffer<Vec<u8>>)>, i: int)
    requires
        0 <= i < entries.len(),
        distinct_keys(entries),
    ensures
        table_model(entries).contains_key(entries[i].0@),
        table_model(entries)[entries[i].0@] == entry_model(entries[i].1),
    decreases entries.len(),
{
    let last = entries.len() - 1;
    assert(entries[last] == entries.last());
    if i < last {
        let dl = entries.drop_last();
        assert forall|a: int, b: int| 0 <= a < b < dl.len() implies (#[trigger] dl[a]).0@ != (
        #[trigger] dl[b]).0@ by {
            assert(dl[a] == entries[a]);
            assert(dl[b] == entries[b]);
        }
        lemma_table_model_lookup(dl, i);
        assert(dl[i] == entries[i]);
        assert(entries[i].0@ != entries[last].0@);
    }
}

/// A key under none of the entries is not in the table.
proof fn lemma_table_model_absent(entries: Seq<(Vec<u8>, CircularBuffer<Vec<u8>>)>, key: Seq<u8>)
    requires
        forall|i: int| 0 <= i < entries.len() ==> (#[trigger] entries[i]).0@ != key,
    ensures
        !table_model(entries).contains_key(key),
    decreases entries.len(),
{
    if entries.len() > 0 {
        let dl = entries.drop_last();
        assert forall|i: int| 0 <= i < dl.len() implies (#[trigger] dl[i]).0@ != key by {
            assert(dl[i] == entries[i]);
        }
        lemma_table_model_absent(dl, key);
        assert(entries[entries.len() - 1] == entries.last());
    }
}

/// Replacing entry `i` by another entry with the same key updates the table
/// at that key alone.
proof fn lemma_table_model_update(
    entries: Seq<(Vec<u8>, CircularBuffer<Vec<u8>>)>,
    i: int,
    e: (Vec<u8>, CircularBuffer<Vec<u8>>),
)
    requires
        0 <= i < entries.len(),
        distinct_keys(entries),
        e.0@ == entries[i].0@,
    ensures
        table_model(entries.update(i, e)) == table_model(entries).insert(e.0@, entry_model(e.1)),
    decreases entries.len(),
{
    let u = entries.update(i, e);
    let last = entries.len() - 1;
    assert(entries[last] == entries.last());
    assert(u[last] == u.last());
    if i == last {
        assert(u.drop_last() =~= entries.drop_last());
        assert(u.last() == e);
        assert(table_model(entries).insert(e.0@, entry_model(e.1)) =~= table_model(
            entries.drop_last(),
        ).insert(e.0@, entry_model(e.1)));
    } else {
        let dl = entries.drop_last();
        assert(u.drop_last() =~= dl.update(i, e));
        assert(u.last() == entries.last());
        assert forall|a: int, b: int| 0 <= a < b < dl.len() implies (#[trigger] dl[a]).0@ != (
        #[trigger] dl[b]).0@ by {
            assert(dl[a] == entries[a]);
            assert(dl[b] == entries[b]);
        }
        assert(dl[i] == entries[i]);
        lemma_table_model_update(dl, i, e);
        assert(entries[i].0@ != entries[last].0@);
        assert(table_model(dl).insert(e.0@, entry_model(e.1)).insert(
            entries.last().0@,
            entry_model(entries.last().1),
        ) =~= table_model(dl).insert(entries.last().0@, entry_model(entries.last().1)).insert(
            e.0@,
            entry_model(e.1),
        ));
    }
}

impl History {
    /// Distinct recorded keys, every cursor in range.
    pub closed spec fn well_formed(&self) -> bool {
        &&& distinct_keys(self.responses@)
        &&& (forall|i: int|
            0 <= i < self.responses@.len() ==> (#[trigger] self.responses@[i]).1.well_formed())
    }

    /// A replay transport with nothing recorded: every command fails.
    pub fn default() -> (r: History)
        ensures
            r@.table == Map::<Seq<u8>, (Seq<Seq<u8>>, int)>::empty(),
            r@.pending_write == Seq::<u8>::empty(),
            r@.next_response == Seq::<u8>::empty(),
            r@.clock == 0,
            r.well_formed(),
    {
        History {
            responses: Vec::new(),
            write_data: Vec::new(),
            next_response: Vec::new(),
            clock_ms: 0,
            log: Ghost(Seq::empty()),
        }
    }

    /// A replay transport over the given recordings. The keys must be
    /// distinct and every buffer's cursor at its start.
    pub fn new(responses: Vec<(Vec<u8>, CircularBuffer<Vec<u8>>)>) -> (r: History)
        requires
            forall|i: int, j: int|
                0 <= i < j < responses@.len() ==> responses@[i].0@ != responses@[j].0@,
            forall|i: int| 0 <= i < responses@.len() ==> responses@[i].1.well_formed(),
        ensures
            r@.table == table_model(responses@),
            r@.pending_write == Seq::<u8>::empty(),
            r@.next_response == Seq::<u8>::empty(),
            r@.clock == 0,
            r.well_formed(),
    {
        History {
            responses,
            write_data: Vec::new(),
            next_response: Vec::new(),
            clock_ms: 0,
            log: Ghost(Seq::empty()),
        }
    }
}

impl Transport for History {
    /// The bytes accepted by successful writes, in order.
    closed spec fn write_log(&self) -> Seq<u8> {
        self.log@
    }

    /// A replay transport has nothing to establish.
    fn init(&mut self) -> (r: Result<(), Error>)
        ensures
            *final(self) == *old(self),
            r is Ok,
    {
        Ok(())
    }

    /// One `write` call behaves exactly as `write_transition` says: a chunk
    /// closed by CRLF completes a key and picks that key's next recorded
    /// response, round-robin; an unknown or exhausted key fails.
    fn write(&mut self, data: &Vec<u8>) -> (r: Result<(), Error>)
        ensures
            old(self).well_formed() ==> ({
                let step = write_transition(old(self)@, data@);
                &&& final(self)@ == step.0
                &&& (r is Ok) == step.1
            }),
            old(self).well_formed() ==> final(self).well_formed(),
            (r matches Err(e) ==> e is Other),
    {
        let n = data.len();
        let terminal = n >= 2 && data[n - 2] == CR && data[n - 1] == LF;
        if !terminal {
            self.write_data = clone_bytes(data);
            self.log = Ghost(self.log@ + data@);
            return Ok(());
        }
        let mut key = clone_bytes(&self.write_data);
        append_bytes(&mut key, data);
        self.write_data = Vec::new();
        let count = self.responses.len();
        let mut idx: usize = 0;
        let mut found: bool = false;
        while !found && idx < count
            invariant
                idx <= count,
                count == self.responses@.len(),
                !found ==> forall|j: int|
                    0 <= j < idx ==> (#[trigger] self.responses@[j]).0@ != key@,
                found ==> idx < count && self.responses@[idx as int].0@ == key@,
            decreases (if found { 0int } else { count - idx + 1 }),
        {
            if bytes_eq(&self.responses[idx].0, &key) {
                found = true;
            } else {
                idx = idx + 1;
            }
        }
        if !found {
            proof {
                if old(self).well_formed() {
                    lemma_table_model_absent(self.responses@, key@);
                    let step = write_transition(old(self)@, data@);
                    assert(self@ =~= step.0);
                }
            }
            return Err(Error::Other);
        }
        let pair = self.responses.remove(idx);
        let (key_owned, mut cb) = pair;
        let got_some = match cb.get() {
            Some(resp) => {
                let copy = clone_bytes(resp);
                self.next_response = copy;
                true
            },
            None => false,
        };
        let ghost gpair = (key_owned, cb);
        self.responses.insert(idx, (key_owned, cb));
        proof {
            if old(self).well_formed() {
                let entries0 = old(self).responses@;
                let i = idx as int;
                assert(self.responses@ =~= entries0.update(i, gpair));
                lemma_table_model_lookup(entries0, i);
                lemma_table_model_update(entries0, i, gpair);
                let step = write_transition(old(self)@, data@);
                let key_seq = old(self)@.pending_write + data@;
                assert(key_seq =~= key@);
                let resps = entry_model(entries0[i].1).0;
                assert(resps.len() == entries0[i].1.items().len());
                if entries0[i].1.items().len() > 0 {
                    let cur = entries0[i].1.cursor();
                    assert(resps[cur] == entries0[i].1.items()[cur]@);
                    assert(entry_model(gpair.1) == (resps, (cur + 1) % (resps.len() as int)));
                    assert(self@.table =~= step.0.table);
                    assert(self@ =~= step.0);
                } else {
                    assert(gpair == entries0[i]);
                    assert(entries0.update(i, gpair) =~= entries0);
                    assert(self@ =~= step.0);
                }
                assert forall|a: int, b: int|
                    0 <= a < b < self.responses@.len() implies (#[trigger] self.responses@[a]).0@
                    != (#[trigger] self.responses@[b]).0@ by {
                    assert(entries0[a].0@ != entries0[b].0@);
                }
                assert forall|a: int|
                    0 <= a < self.responses@.len() implies (#[trigger] self.responses@[a]).1.well_formed() by {
                    assert(entries0[a].1.well_formed());
                }
            }
        }
        if got_some {
            self.log = Ghost(self.log@ + data@);
            Ok(())
        } else {
            Err(Error::Other)
        }
    }

    /// Hands out up to `max` bytes from the front of the pending response;
    /// never an error, and an empty vector once the response is exhausted.
    fn read(&mut self, max: usize) -> (r: Result<Vec<u8>, Error>)
        ensures
            (r matches Ok(v) ==> v@.len() <= max),
            ({
                let n = if old(self)@.next_response.len() <= max as int {
                    old(self)@.next_response.len() as int
                } else {
                    max as int
                };
                &&& r matches Ok(v) && v@ == old(self)@.next_response.take(n)
                &&& final(self)@.next_response == old(self)@.next_response.skip(n)
                &&& final(self)@.table == old(self)@.table
                &&& final(self)@.pending_write == old(self)@.pending_write
                &&& final(self)@.clock == old(self)@.clock
            }),
            final(self).well_formed() == old(self).well_formed(),
    {
        let have = self.next_response.len();
        let n = if have <= max {
            have
        } else {
            max
        };
        let out = subvec(&self.next_response, 0, n);
        let rest = subvec(&self.next_response, n, have);
        self.next_response = rest;
        proof {
            assert(out@ =~= old(self)@.next_response.take(n as int));
            assert(self.next_response@ =~= old(self)@.next_response.skip(n as int));
        }
        Ok(out)
    }

    /// A replay transport is always considered connected.
    fn connected(&self) -> (r: bool)
        ensures
            r,
    {
        true
    }

    /// The synthetic clock.
    fn now_ms(&self) -> (r: u64)
        ensures
            r as int == self@.clock,
    {
        self.clock_ms
    }

    /// Advances the synthetic clock by `ms`, saturating at the clock's top.
    fn sleep_ms(&mut self, ms: u64)
        ensures
            final(self)@.table == old(self)@.table,
            final(self)@.pending_write == old(self)@.pending_write,
            final(self)@.next_response == old(self)@.next_response,
            final(self)@.clock == (if old(self)@.clock + ms <= u64::MAX as int {
                old(self)@.clock + ms
            } else {
                u64::MAX as int
            }),
            final(self).well_formed() == old(self).well_formed(),
    {
        if self.clock_ms <= u64::MAX - ms {
            self.clock_ms = self.clock_ms + ms;
        } else {
            self.clock_ms = u64::MAX;
        }
    }
}

/// A byte sequence with each carriage return written as the two characters
/// `\` `r` and each line feed as `\` `n`: how the replay log stores text.
pub open spec fn escaped(s: Seq<u8>) -> Seq<u8>
    decreases s.len(),
{
    if s.len() == 0 {
        Seq::empty()
    } else if s[0] == CR {
        seq![92u8, 114u8] + escaped(s.skip(1))
    } else if s[0] == LF {
        seq![92u8, 110u8] + escaped(s.skip(1))
    } else {
        seq![s[0]] + escaped(s.skip(1))
    }
}

/// The reverse reading: each `\` `r` pair becomes a carriage return, each
/// `\` `n` pair a line feed, anything else is kept, left to right.
pub open spec fn unescaped(s: Seq<u8>) -> Seq<u8>
    decreases s.len(),
{
    if s.len() == 0 {
        Seq::empty()
    } else if s.len() >= 2 && s[0] == 92 && s[1] == 114 {
        seq![CR] + unescaped(s.skip(2))
    } else if s.len() >= 2 && s[0] == 92 && s[1] == 110 {
        seq![LF] + unescaped(s.skip(2))
    } else {
        seq![s[0]] + unescaped(s.skip(1))
    }
}

/// Escapes carriage returns and line feeds for the replay log.
pub fn escape(v: &Vec<u8>) -> (r: Vec<u8>)
    ensures
        r@ == escaped(v@),
{
    let mut r: Vec<u8> = Vec::new();
    let mut i: usize = 0;
    proof {
        assert(v@.skip(0) =~= v@);
    }
    while i < v.len()
        invariant
            i <= v@.len(),
            r@ + escaped(v@.skip(i as int)) == escaped(v@),
        decreases v@.len() - i,
    {
        let ghost rest = v@.skip(i as int);
        let ghost pre = r@;
        proof {
            assert(rest[0] == v@[i as int]);
            assert(rest.skip(1) =~= v@.skip(i as int + 1));
        }
        let b = v[i];
        if b == CR {
            r.push(92);
            r.push(114);
            proof {
                assert(pre + (seq![92u8, 114u8] + escaped(v@.skip(i as int + 1))) =~= r@ + escaped(
                    v@.skip(i as int + 1),
                ));
            }
        } else if b == LF {
            r.push(92);
            r.push(110);
            proof {
                assert(pre + (seq![92u8, 110u8] + escaped(v@.skip(i as int + 1))) =~= r@ + escaped(
                    v@.skip(i as int + 1),
                ));
            }
        } else {
            r.push(b);
            proof {
                assert(pre + (seq![b] + escaped(v@.skip(i as int + 1))) =~= r@ + escaped(
                    v@.skip(i as int + 1),
                ));
            }
        }
        i = i + 1;
    }
    proof {
        assert(v@.skip(v@.len() as int) =~= Seq::<u8>::empty());
        assert(r@ + Seq::<u8>::empty() =~= r@);
    }
    r
}

/// Undoes the replay log's escaping.
pub fn unescape(v: &Vec<u8>) -> (r: Vec<u8>)
    ensures
        r@ == unescaped(v@),
{
    let mut r: Vec<u8> = Vec::new();
    let mut i: usize = 0;
    proof {
        assert(v@.skip(0) =~= v@);
    }
    while i < v.len()
        invariant
            i <= v@.len(),
            r@ + unescaped(v@.skip(i as int)) == unescaped(v@),
        decreases v@.len() - i,
    {
        let ghost rest = v@.skip(i as int);
        let ghost pre = r@;
        proof {
            assert(rest[0] == v@[i as int]);
            assert(rest.skip(1) =~= v@.skip(i as int + 1));
            if rest.len() >= 2 {
                assert(rest[1] == v@[i as int + 1]);
                assert(rest.skip(2) =~= v@.skip(i as int + 2));
            }
        }
        let b = v[i];
        if b == 92 && i + 1 < v.len() && (v[i + 1] == 114 || v[i + 1] == 110) {
            r.push(if v[i + 1] == 114 {
                CR
            } else {
                LF
            });
            proof {
                let c: u8 = if v@[i as int + 1] == 114 {
                    CR
                } else {
                    LF
                };
                assert(pre + (seq![c] + unescaped(v@.skip(i as int + 2))) =~= r@ + unescaped(
                    v@.skip(i as int + 2),
                ));
            }
            i = i + 2;
        } else {
            r.push(b);
            proof {
                assert(pre + (seq![b] + unescaped(v@.skip(i as int + 1))) =~= r@ + unescaped(
                    v@.skip(i as int + 1),
                ));
            }
            i = i + 1;
        }
    }
    proof {
        assert(v@.skip(v@.len() as int) =~= Seq::<u8>::empty());
        assert(r@ + Seq::<u8>::empty() =~= r@);
    }
    r
}

/// The bytes `write: '`, which open a recorded write line.
pub open spec fn write_marker() -> Seq<u8> {
    seq![119u8, 114u8, 105u8, 116u8, 101u8, 58u8, 32u8, 39u8]
}

/// The bytes `read: '`, which open a recorded read line.
pub open spec fn read_marker() -> Seq<u8> {
    seq![114u8, 101u8, 97u8, 100u8, 58u8, 32u8, 39u8]
}

pub open spec fn has_prefix(s: Seq<u8>, p: Seq<u8>) -> bool {
    s.len() >= p.len() && s.take(p.len() as int) == p
}

/// A log line's quoted body: what follows the marker, without the single
/// closing quote when one is there.
pub open spec fn quoted_body(line: Seq<u8>, marker_len: int) -> Seq<u8> {
    let body = line.skip(marker_len);
    if body.len() > 0 && body.last() == 39 {
        body.drop_last()
    } else {
        body
    }
}

/// Appends one recorded response to a key's round-robin list, creating the
/// key on first sight; the cursor starts at the beginning.
pub open spec fn log_add(
    t: Map<Seq<u8>, (Seq<Seq<u8>>, int)>,
    k: Seq<u8>,
    resp: Seq<u8>,
) -> Map<Seq<u8>, (Seq<Seq<u8>>, int)> {
    if t.contains_key(k) {
        t.insert(k, (t[k].0.push(resp), 0))
    } else {
        t.insert(k, (seq![resp], 0))
    }
}

/// The table described by the lines of a replay log: a `write` line opens a
/// pair (closing the previous one), the `read` lines after it concatenate
/// into its recorded response, and any other line is ignored. The same
/// write text may recur, collecting responses in order.
pub open spec fn log_table(
    lines: Seq<Seq<u8>>,
    t: Map<Seq<u8>, (Seq<Seq<u8>>, int)>,
    last_write: Seq<u8>,
    last_read: Seq<u8>,
) -> Map<Seq<u8>, (Seq<Seq<u8>>, int)>
    decreases lines.len(),
{
    if lines.len() == 0 {
        if last_read.len() > 0 {
            log_add(t, last_write, last_read)
        } else {
            t
        }
    } else {
        let line = lines[0];
        if has_prefix(line, write_marker()) {
            let t2 = if last_read.len() > 0 {
                log_add(t, last_write, last_read)
            } else {
                t
            };
            log_table(lines.skip(1), t2, unescaped(quoted_body(line, 8)), Seq::empty())
        } else if has_prefix(line, read_marker()) {
            log_table(lines.skip(1), t, last_write, last_read + unescaped(quoted_body(line, 7)))
        } else {
            log_table(lines.skip(1), t, last_write, last_read)
        }
    }
}

/// Appends one response to the key's recordings, exactly as `log_add`
/// says; every cursor stays at the start.
fn add_response(entries: &mut Vec<(Vec<u8>, CircularBuffer<Vec<u8>>)>, key: Vec<u8>, resp: Vec<u8>)
    requires
        distinct_keys(old(entries)@),
        forall|j: int|
            0 <= j < old(entries)@.len() ==> (#[trigger] old(entries)@[j]).1.well_formed() && old(
                entries,
            )@[j].1.cursor() == 0,
    ensures
        distinct_keys(final(entries)@),
        forall|j: int|
            0 <= j < final(entries)@.len() ==> (#[trigger] final(entries)@[j]).1.well_formed()
                && final(entries)@[j].1.cursor() == 0,
        table_model(final(entries)@) == log_add(table_model(old(entries)@), key@, resp@),
{
    let ghost entries0 = entries@;
    let ghost gresp = resp@;
    let count = entries.len();
    let mut idx: usize = 0;
    let mut found: bool = false;
    while !found && idx < count
        invariant
            idx <= count,
            count == entries@.len(),
            entries@ == entries0,
            !found ==> forall|j: int| 0 <= j < idx ==> (#[trigger] entries@[j]).0@ != key@,
            found ==> idx < count && entries@[idx as int].0@ == key@,
        decreases (if found {
            0int
        } else {
            count - idx + 1
        }),
    {
        if bytes_eq(&entries[idx].0, &key) {
            found = true;
        } else {
            idx = idx + 1;
        }
    }
    if found {
        proof {
            lemma_table_model_lookup(entries0, idx as int);
        }
        let pair = entries.remove(idx);
        let (k, mut cb) = pair;
        let ghost cb0 = cb;
        let ghost gresp_vec = resp;
        cb.data.push(resp);
        proof {
            assert(cb.items() =~= cb0.items().push(gresp_vec));
            assert(cb.cursor() == 0);
        }
        let ghost gpair = (k, cb);
        entries.insert(idx, (k, cb));
        proof {
            let i = idx as int;
            assert(entries@ =~= entries0.update(i, gpair));
            lemma_table_model_update(entries0, i, gpair);
            assert(entry_model(gpair.1).0 =~= entry_model(entries0[i].1).0.push(gresp));
            assert(table_model(entries@) =~= log_add(table_model(entries0), key@, gresp));
            assert forall|a: int, b: int|
                0 <= a < b < entries@.len() implies (#[trigger] entries@[a]).0@ != (
            #[trigger] entries@[b]).0@ by {
                assert(entries0[a].0@ != entries0[b].0@);
            }
            assert forall|j: int|
                0 <= j < entries@.len() implies (#[trigger] entries@[j]).1.well_formed()
                    && entries@[j].1.cursor() == 0 by {
                if j != i {
                    assert(entries@[j] == entries0[j]);
                }
            }
        }
    } else {
        proof {
            lemma_table_model_absent(entries0, key@);
        }
        let ghost gkey = key@;
        let mut data: Vec<Vec<u8>> = Vec::new();
        data.push(resp);
        let cb = CircularBuffer::new(data);
        entries.push((key, cb));
        proof {
            assert(entries@.drop_last() =~= entries0);
            assert(entries@.last().0@ == gkey);
            assert(entry_model(entries@.last().1).0 =~= seq![gresp]);
            assert(table_model(entries@) =~= log_add(table_model(entries0), gkey, gresp));
            assert forall|a: int, b: int|
                0 <= a < b < entries@.len() implies (#[trigger] entries@[a]).0@ != (
            #[trigger] entries@[b]).0@ by {
                if b < entries@.len() - 1 {
                    assert(entries0[a].0@ != entries0[b].0@);
                } else {
                    assert(entries@[a] == entries0[a]);
                }
            }
            assert forall|j: int|
                0 <= j < entries@.len() implies (#[trigger] entries@[j]).1.well_formed()
                    && entries@[j].1.cursor() == 0 by {
                if j < entries@.len() - 1 {
                    assert(entries@[j] == entries0[j]);
                }
            }
        }
    }
}

impl History {
    /// Builds a replay transport from a recorded log: alternating lines
    /// `write: '<escaped text>'` and `read: '<escaped text>'`, where a
    /// write line followed by the concatenation of the read lines up to
    /// the next write makes one recorded exchange, and a write text that
    /// recurs collects its responses in order for round-robin replay.
    pub fn from_log(log: &Vec<u8>) -> (r: History)
        ensures
            r@.table == log_table(
                lines_of(log@),
                Map::<Seq<u8>, (Seq<Seq<u8>>, int)>::empty(),
                Seq::<u8>::empty(),
                Seq::<u8>::empty(),
            ),
            r@.pending_write == Seq::<u8>::empty(),
            r@.next_response == Seq::<u8>::empty(),
            r@.clock == 0,
            r.well_formed(),
    {
        let lines = split_into_lines(log);
        let ghost all_lines = lines.deep_view();
        let mut entries: Vec<(Vec<u8>, CircularBuffer<Vec<u8>>)> = Vec::new();
        let mut last_write: Vec<u8> = Vec::new();
        let mut last_read: Vec<u8> = Vec::new();
        let wm: Vec<u8> = vec![119u8, 114, 105, 116, 101, 58, 32, 39];
        let rm: Vec<u8> = vec![114u8, 101, 97, 100, 58, 32, 39];
        proof {
            assert(wm@ =~= write_marker());
            assert(rm@ =~= read_marker());
            assert(all_lines.skip(0) =~= all_lines);
        }
        let line_count = lines.len();
        let mut i: usize = 0;
        while i < line_count
            invariant
                i <= line_count,
                line_count == lines@.len(),
                all_lines == lines.deep_view(),
                wm@ == write_marker(),
                rm@ == read_marker(),
                distinct_keys(entries@),
                forall|j: int|
                    0 <= j < entries@.len() ==> (#[trigger] entries@[j]).1.well_formed()
                        && entries@[j].1.cursor() == 0,
                log_table(all_lines.skip(i as int), table_model(entries@), last_write@, last_read@)
                    == log_table(
                    all_lines,
                    Map::<Seq<u8>, (Seq<Seq<u8>>, int)>::empty(),
                    Seq::<u8>::empty(),
                    Seq::<u8>::empty(),
                ),
            decreases line_count - i,
        {
            let ghost rest = all_lines.skip(i as int);
            proof {
                assert(rest[0] == all_lines[i as int]);
                assert(rest.skip(1) =~= all_lines.skip(i as int + 1));
                assert(lines@[i as int]@ == all_lines[i as int]);
            }
            let line = &lines[i];
            if starts_with(line, &wm) {
                if last_read.len() > 0 {
                    add_response(&mut entries, last_write, last_read);
                } else {
                }
                let end = if line.len() > wm.len() && line[line.len() - 1] == 39 {
                    line.len() - 1
                } else {
                    line.len()
                };
                let piece = subvec(line, 8, end);
                proof {
                    assert(piece@ =~= quoted_body(line@, 8));
                }
                last_write = unescape(&piece);
                last_read = Vec::new();
            } else if starts_with(line, &rm) {
                let end = if line.len() > rm.len() && line[line.len() - 1] == 39 {
                    line.len() - 1
                } else {
                    line.len()
                };
                let piece = subvec(line, 7, end);
                proof {
                    assert(piece@ =~= quoted_body(line@, 7));
                }
                let unescaped_piece = unescape(&piece);
                append_bytes(&mut last_read, &unescaped_piece);
            } else {
            }
            i = i + 1;
        }
        proof {
            assert(all_lines.skip(line_count as int) =~= Seq::<Seq<u8>>::empty());
        }
        if last_read.len() > 0 {
            add_response(&mut entries, last_write, last_read);
        }
        History::new(entries)
    }
}

/// A replay transport seeded with one write key and two recorded responses
/// returns them in order on the first two matching writes, and on a third
/// matching write starts over with the first: the round-robin cursor is
/// circular.
pub proof fn lemma_replay_round_robin(m: HistoryModel, key: Seq<u8>, r0: Seq<u8>, r1: Seq<u8>)
    requires
        spec_ends_with_crlf(key),
        m.table == Map::<Seq<u8>, (Seq<Seq<u8>>, int)>::empty().insert(key, (seq![r0, r1], 0)),
        m.pending_write == Seq::<u8>::empty(),
    ensures
        ({
            let s1 = write_transition(m, key);
            let s2 = write_transition(s1.0, key);
            let s3 = write_transition(s2.0, key);
            &&& s1.1 && s1.0.next_response == r0
            &&& s2.1 && s2.0.next_response == r1
            &&& s3.1 && s3.0.next_response == r0
        }),
{
    let rr = seq![r0, r1];
    assert(rr.len() == 2);
    assert(rr[0] == r0);
    assert(rr[1] == r1);
    let s1 = write_transition(m, key);
    assert(m.pending_write + key =~= key);
    assert(m.table.contains_key(key));
    assert(m.table[key] == (rr, 0int));
    assert((0int + 1) % 2int == 1int);
    assert(s1.0.next_response == r0);
    let s2 = write_transition(s1.0, key);
    assert(s1.0.pending_write + key =~= key);
    assert(s1.0.table.contains_key(key));
    assert(s1.0.table[key] == (rr, 1int));
    assert((1int + 1) % 2int == 0int);
    assert(s2.0.next_response == r1);
    let s3 = write_transition(s2.0, key);
    assert(s2.0.pending_write + key =~= key);
    assert(s2.0.table.contains_key(key));
    assert(s2.0.table[key] == (rr, 0int));
    assert(s3.0.next_response == r0);
}

} // verus!

