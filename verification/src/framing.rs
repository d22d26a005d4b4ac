//! Pure frame-assembly logic: how raw bytes pulled off the receive queue are
//! normalized and accumulated into a terminator-delimited frame, and how an
//! unfinished frame is returned to the queue without losing a byte.

use vstd::prelude::*;
use std::collections::VecDeque;

verus! {

broadcast use vstd::std_specs::vecdeque::group_vec_dequeue_axioms;

/// Carriage return; normalized to a line feed during frame assembly.
pub const CR: u8 = 13;

/// Line feed; dropped when it arrives bare, produced for each carriage return.
pub const LF: u8 = 10;

/// What a received byte contributes to a frame: a carriage return turns into
/// a line feed, a bare line feed disappears, every other byte is kept as is.
pub open spec fn normalize_byte(b: u8) -> Option<u8> {
    if b == CR {
        Some(LF)
    } else if b == LF {
        None
    } else {
        Some(b)
    }
}

/// A whole byte sequence after normalization: each byte dropped or replaced
/// as `normalize_byte` says.
pub open spec fn normalized(s: Seq<u8>) -> Seq<u8>
    decreases s.len(),
{
    if s.len() == 0 {
        Seq::empty()
    } else {
        match normalize_byte(s[0]) {
            Some(b) => seq![b] + normalized(s.skip(1)),
            None => normalized(s.skip(1)),
        }
    }
}

/// One pass of frame assembly over queued bytes: consumes bytes from the
/// front of `q`, appending their normalized forms to `acc`, until the
/// terminator has just been appended (done) or the queue runs out (not done).
/// Returns (queue left over, accumulator afterwards, whether the terminator
/// was reached).
pub open spec fn scan_result(q: Seq<u8>, acc: Seq<u8>, term: u8) -> (Seq<u8>, Seq<u8>, bool)
    decreases q.len(),
{
    if q.len() == 0 {
        (q, acc, false)
    } else {
        let rest = q.skip(1);
        match normalize_byte(q[0]) {
            None => scan_result(rest, acc, term),
            Some(b) => if b == term {
                (rest, acc.push(b), true)
            } else {
                scan_result(rest, acc.push(b), term)
            },
        }
    }
}

/// Frame assembly consumes queued bytes one at a time, exactly as
/// `scan_result` describes.
pub fn scan_queue(queue: &mut VecDeque<u8>, acc: &mut Vec<u8>, term: u8) -> (done: bool)
    ensures
        ({
            let r = scan_result(old(queue)@, old(acc)@, term);
            &&& final(queue)@ == r.0
            &&& final(acc)@ == r.1
            &&& done == r.2
        }),
{
    loop
        invariant
            scan_result(queue@, acc@, term) == scan_result(old(queue)@, old(acc)@, term),
        decreases queue@.len(),
    {
        let ghost q_pre = queue@;
        let ghost acc_pre = acc@;
        match queue.pop_front() {
            None => {
                return false;
            },
            Some(b) => {
                if b == CR {
                    acc.push(LF);
                    if term == LF {
                        proof {
                            assert(scan_result(q_pre, acc_pre, term) == (q_pre.skip(1), acc_pre.push(LF), true));
                        }
                        return true;
                    }
                } else if b == LF {
                    // dropped without being appended
                } else {
                    acc.push(b);
                    if b == term {
                        proof {
                            assert(scan_result(q_pre, acc_pre, term) == (q_pre.skip(1), acc_pre.push(b), true));
                        }
                        return true;
                    }
                }
            },
        }
    }
}

/// Returns the accumulated bytes of a failed frame attempt to the front of
/// the queue, preserving their original order: afterwards the queue is
/// exactly the accumulator followed by what the queue already held.
pub fn push_front_all(queue: &mut VecDeque<u8>, acc: &Vec<u8>)
    ensures
        final(queue)@ == acc@ + old(queue)@,
{
    let mut i: usize = acc.len();
    while i > 0
        invariant
            i <= acc@.len(),
            queue@ == acc@.skip(i as int) + old(queue)@,
        decreases i,
    {
        i = i - 1;
        queue.push_front(acc[i]);
        proof {
            assert(seq![acc@[i as int]] + (acc@.skip(i as int + 1) + old(queue)@)
                =~= acc@.skip(i as int) + old(queue)@);
        }
    }
    proof {
        assert(acc@.skip(0) =~= acc@);
    }
}

/// Normalization distributes over concatenation.
pub proof fn lemma_normalized_concat(a: Seq<u8>, b: Seq<u8>)
    ensures
        normalized(a + b) == normalized(a) + normalized(b),
    decreases a.len(),
{
    if a.len() == 0 {
        assert(a + b =~= b);
        assert(normalized(a) + normalized(b) =~= normalized(b));
    } else {
        assert((a + b)[0] == a[0]);
        assert((a + b).skip(1) =~= a.skip(1) + b);
        lemma_normalized_concat(a.skip(1), b);
        match normalize_byte(a[0]) {
            Some(c) => {
                assert(normalized(a + b) == seq![c] + (normalized(a.skip(1)) + normalized(b)));
                assert(seq![c] + (normalized(a.skip(1)) + normalized(b)) =~= (seq![c] + normalized(
                    a.skip(1),
                )) + normalized(b));
            },
            None => {},
        }
    }
}

/// Frame assembly appends exactly one line feed for each carriage-return/
/// line-feed pair, and no separate entry for the dropped bare line feed.
pub proof fn lemma_crlf_collapses(a: Seq<u8>, b: Seq<u8>)
    ensures
        normalized(a + seq![CR, LF] + b) == normalized(a) + seq![LF] + normalized(b),
{
    let pair = seq![CR, LF];
    assert(pair.skip(1) =~= seq![LF]);
    assert(seq![LF].skip(1) =~= Seq::<u8>::empty());
    assert(normalized(Seq::<u8>::empty()) =~= Seq::<u8>::empty());
    assert(normalized(seq![LF]) =~= Seq::<u8>::empty());
    assert(normalized(pair) =~= seq![LF]);
    lemma_normalized_concat(a + pair, b);
    lemma_normalized_concat(a, pair);
    assert((a + pair) + b =~= a + pair + b);
}

/// While the terminator has not been reached, frame assembly accumulates
/// exactly the normalization of what it consumed: the queue is drained and
/// the accumulator grows by `normalized(q)`.
pub proof fn lemma_scan_without_terminator(q: Seq<u8>, acc: Seq<u8>, term: u8)
    requires
        !normalized(q).contains(term),
    ensures
        scan_result(q, acc, term) == (Seq::<u8>::empty(), acc + normalized(q), false),
    decreases q.len(),
{
    if q.len() == 0 {
        assert(normalized(q) =~= Seq::<u8>::empty());
        assert(acc + normalized(q) =~= acc);
        assert(q =~= Seq::<u8>::empty());
    } else {
        match normalize_byte(q[0]) {
            None => {
                lemma_scan_without_terminator(q.skip(1), acc, term);
            },
            Some(b) => {
                assert(normalized(q) == seq![b] + normalized(q.skip(1)));
                assert(normalized(q)[0] == b);
                assert(b != term);
                assert forall|i: int| 0 <= i < normalized(q.skip(1)).len() implies #[trigger] normalized(
                    q.skip(1),
                )[i] != term by {
                    assert(normalized(q)[i + 1] == normalized(q.skip(1))[i]);
                }
                lemma_scan_without_terminator(q.skip(1), acc.push(b), term);
                assert(acc.push(b) + normalized(q.skip(1)) =~= acc + normalized(q));
            },
        }
    }
}

/// The normalized shape of `n` skipped empty frames: the bare terminator,
/// `n` times.
pub open spec fn empty_frames(n: int, term: u8) -> Seq<u8> {
    Seq::new(n as nat, |i: int| term)
}

/// A completed scan consumed a prefix of the queue whose normalization is
/// exactly what it appended to the accumulator; the rest of the queue is
/// untouched.
pub proof fn lemma_scan_consumed(q: Seq<u8>, acc: Seq<u8>, term: u8)
    requires
        scan_result(q, acc, term).2,
    ensures
        ({
            let r = scan_result(q, acc, term);
            let used = q.take(q.len() - r.0.len());
            &&& r.0.len() <= q.len()
            &&& r.0 == q.skip(q.len() - r.0.len())
            &&& r.1 == acc + normalized(used)
        }),
    decreases q.len(),
{
    let r = scan_result(q, acc, term);
    lemma_scan_extends(q, acc, term);
    let used = q.take(q.len() - r.0.len());
    assert(seq![q[0]].skip(1) =~= Seq::<u8>::empty());
    assert(normalized(Seq::<u8>::empty()) =~= Seq::<u8>::empty());
    match normalize_byte(q[0]) {
        None => {
            lemma_scan_consumed(q.skip(1), acc, term);
            let used1 = q.skip(1).take(q.skip(1).len() - r.0.len());
            assert(used =~= seq![q[0]] + used1);
            lemma_normalized_concat(seq![q[0]], used1);
            assert(normalized(seq![q[0]]) =~= Seq::<u8>::empty());
            assert(normalized(used) =~= normalized(used1));
            assert(r.0 =~= q.skip(q.len() - r.0.len()));
        },
        Some(b) => {
            if b == term {
                assert(r.0 == q.skip(1));
                assert(used =~= seq![q[0]]);
                assert(normalized(seq![q[0]]) =~= seq![b]);
                assert(acc + normalized(used) =~= acc.push(b));
            } else {
                lemma_scan_consumed(q.skip(1), acc.push(b), term);
                let used1 = q.skip(1).take(q.skip(1).len() - r.0.len());
                assert(used =~= seq![q[0]] + used1);
                lemma_normalized_concat(seq![q[0]], used1);
                assert(normalized(seq![q[0]]) =~= seq![b]);
                assert(acc + normalized(used) =~= acc.push(b) + normalized(used1));
                assert(r.0 =~= q.skip(q.len() - r.0.len()));
            }
        },
    }
}

/// Assembling frames from the queued bytes alone, skipping empty ones: the
/// first nonempty frame that completes, without its terminator, if any
/// does.
pub open spec fn first_nonempty_frame(q: Seq<u8>, term: u8) -> Option<Seq<u8>>
    decreases q.len(),
    via first_nonempty_frame_decreases
{
    let r = scan_result(q, Seq::empty(), term);
    if !r.2 {
        None
    } else if r.1.len() > 1 {
        Some(r.1.drop_last())
    } else {
        first_nonempty_frame(r.0, term)
    }
}

#[via_fn]
proof fn first_nonempty_frame_decreases(q: Seq<u8>, term: u8) {
    let r = scan_result(q, Seq::empty(), term);
    if r.2 {
        lemma_scan_extends(q, Seq::empty(), term);
    }
}

/// Frame assembly only ever extends the accumulator, never rewrites it; the
/// bytes it appends are normalized (no carriage return), and the terminator
/// appears only as the very last byte of a completed frame.
pub proof fn lemma_scan_extends(q: Seq<u8>, acc: Seq<u8>, term: u8)
    ensures
        ({
            let r = scan_result(q, acc, term);
            &&& r.1.len() >= acc.len()
            &&& r.1.take(acc.len() as int) == acc
            &&& (forall|i: int| acc.len() <= i < r.1.len() ==> #[trigger] r.1[i] != CR)
            &&& (r.2 ==> r.1.len() > acc.len() && r.1.last() == term && (forall|i: int|
                acc.len() <= i < r.1.len() - 1 ==> #[trigger] r.1[i] != term))
            &&& (!r.2 ==> (forall|i: int| acc.len() <= i < r.1.len() ==> #[trigger] r.1[i] != term))
            &&& (r.2 ==> r.0.len() < q.len())
            &&& (!r.2 ==> r.0.len() == 0)
            &&& (!r.2 ==> r.1 == acc + normalized(q))
        }),
    decreases q.len(),
{
    let r = scan_result(q, acc, term);
    if q.len() == 0 {
        assert(r.1.take(acc.len() as int) =~= acc);
        assert(normalized(q) =~= Seq::<u8>::empty());
        assert(acc + normalized(q) =~= acc);
    } else {
        match normalize_byte(q[0]) {
            None => {
                lemma_scan_extends(q.skip(1), acc, term);
            },
            Some(b) => {
                assert(b != CR);
                if b == term {
                    assert(r.1 == acc.push(b));
                    assert(r.1.take(acc.len() as int) =~= acc);
                    assert(r.1.last() == term);
                } else {
                    lemma_scan_extends(q.skip(1), acc.push(b), term);
                    let r2 = scan_result(q.skip(1), acc.push(b), term);
                    assert(r == r2);
                    if !r.2 {
                        assert(normalized(q) == seq![b] + normalized(q.skip(1)));
                        assert(acc.push(b) + normalized(q.skip(1)) =~= acc + normalized(q));
                    }
                    assert(acc.push(b).take(acc.len() as int) =~= acc);
                    assert forall|i: int| 0 <= i < acc.len() implies r.1[i] == acc[i] by {
                        assert(r.1.take(acc.push(b).len() as int)[i] == r.1[i]);
                        assert(acc.push(b)[i] == acc[i]);
                    }
                    assert(r.1.take(acc.len() as int) =~= acc);
                    assert(r.1[acc.len() as int] == acc.push(b)[acc.len() as int]) by {
                        assert(r.1.take(acc.push(b).len() as int)[acc.len() as int] == r.1[acc.len() as int]);
                    }
                    assert(r.1[acc.len() as int] == b);
                }
            },
        }
    }
}

/// The two uppercase hexadecimal digit characters (as ASCII bytes) that
/// encode one byte, high digit first.
pub open spec fn hex_digit_char(v: u8) -> u8
    recommends
        v < 16,
{
    if v < 10 {
        (48 + v) as u8
    } else {
        (55 + v) as u8
    }
}

/// The ASCII-hex encoding of a byte sequence: two uppercase digits per byte,
/// in order, with no separators.
pub open spec fn hex_encoding(s: Seq<u8>) -> Seq<u8>
    decreases s.len(),
{
    if s.len() == 0 {
        Seq::empty()
    } else {
        seq![hex_digit_char(s[0] / 16), hex_digit_char(s[0] % 16)] + hex_encoding(s.skip(1))
    }
}

/// Encodes bytes as fixed-width, zero-padded, uppercase ASCII hex.
pub fn encode_hex(data: &Vec<u8>) -> (r: Vec<u8>)
    ensures
        r@ == hex_encoding(data@),
{
    let mut r: Vec<u8> = Vec::new();
    let mut i: usize = 0;
    while i < data.len()
        invariant
            i <= data@.len(),
            r@ == hex_encoding(data@.take(i as int)),
        decreases data@.len() - i,
    {
        let b = data[i];
        let hi = b / 16;
        let lo = b % 16;
        r.push(if hi < 10 { 48 + hi } else { 55 + hi });
        r.push(if lo < 10 { 48 + lo } else { 55 + lo });
        proof {
            lemma_hex_encoding_snoc(data@.take(i as int + 1));
            assert(data@.take(i as int + 1).drop_last() =~= data@.take(i as int));
        }
        i = i + 1;
    }
    proof {
        assert(data@.take(data@.len() as int) =~= data@);
    }
    r
}

/// Appending one byte to a sequence appends its two digits to the encoding.
proof fn lemma_hex_encoding_snoc(s: Seq<u8>)
    requires
        s.len() > 0,
    ensures
        hex_encoding(s) == hex_encoding(s.drop_last())
            + seq![hex_digit_char(s.last() / 16), hex_digit_char(s.last() % 16)],
    decreases s.len(),
{
    if s.len() == 1 {
        assert(s.drop_last() =~= Seq::<u8>::empty());
        assert(s.skip(1) =~= Seq::<u8>::empty());
        assert(hex_encoding(s.drop_last()) == Seq::<u8>::empty());
        assert(hex_encoding(s) =~= seq![hex_digit_char(s[0] / 16), hex_digit_char(s[0] % 16)]);
    } else {
        lemma_hex_encoding_snoc(s.skip(1));
        assert(s.skip(1).drop_last() =~= s.drop_last().skip(1));
        assert(s.skip(1).last() == s.last());
        assert(s.drop_last().len() > 0);
        assert(s.drop_last()[0] == s[0]);
        assert(hex_encoding(s) == seq![hex_digit_char(s[0] / 16), hex_digit_char(s[0] % 16)]
            + hex_encoding(s.skip(1)));
        assert(hex_encoding(s.drop_last()) == seq![hex_digit_char(s[0] / 16), hex_digit_char(s[0] % 16)]
            + hex_encoding(s.drop_last().skip(1)));
        assert(hex_encoding(s) =~= hex_encoding(s.drop_last())
            + seq![hex_digit_char(s.last() / 16), hex_digit_char(s.last() % 16)]);
    }
}

} // verus!
