//! The multi-frame decoder: turns the ASCII text of one adapter response —
//! lines of the form `<address> <block-id> <hex> <hex> ...` — into a mapping
//! from block identifier to its integer values.

use vstd::prelude::*;
use crate::framing::LF;
use crate::util::{bytes_eq, clone_bytes};

verus! {

/// In-line whitespace: what separates the tokens of one response line.
pub open spec fn is_space(b: u8) -> bool {
    b == 32 || b == 9 || b == 13
}

/// ASCII digits `0`-`9`, `A`-`F` and `a`-`f`.
pub open spec fn is_hex_digit(b: u8) -> bool {
    (48 <= b <= 57) || (65 <= b <= 70) || (97 <= b <= 102)
}

/// The value of one hexadecimal digit character.
pub open spec fn hex_digit_value(b: u8) -> int
    recommends
        is_hex_digit(b),
{
    if 48 <= b <= 57 {
        b - 48
    } else if 65 <= b <= 70 {
        b - 55
    } else {
        b - 87
    }
}

/// The value of a hexadecimal token, most significant digit first.
pub open spec fn hex_token_value(t: Seq<u8>) -> int
    decreases t.len(),
{
    if t.len() == 0 {
        0
    } else {
        hex_token_value(t.drop_last()) * 16 + hex_digit_value(t.last())
    }
}

pub open spec fn all_hex_digits(t: Seq<u8>) -> bool {
    forall|i: int| 0 <= i < t.len() ==> is_hex_digit(#[trigger] t[i])
}

/// What parsing a token as a base-16 integer yields: its value when the
/// token is a nonempty run of hexadecimal digits whose value fits an `i32`,
/// nothing otherwise.
pub open spec fn spec_parse_hex(t: Seq<u8>) -> Option<i32> {
    if t.len() > 0 && all_hex_digits(t) && hex_token_value(t) <= i32::MAX {
        Some(hex_token_value(t) as i32)
    } else {
        None
    }
}

/// A token of hexadecimal digits has a value at least zero.
proof fn lemma_hex_value_nonneg(t: Seq<u8>)
    requires
        all_hex_digits(t),
    ensures
        hex_token_value(t) >= 0,
    decreases t.len(),
{
    if t.len() > 0 {
        assert forall|i: int| 0 <= i < t.drop_last().len() implies is_hex_digit(
            #[trigger] t.drop_last()[i],
        ) by {
            assert(t.drop_last()[i] == t[i]);
        }
        lemma_hex_value_nonneg(t.drop_last());
        assert(t.last() == t[t.len() - 1]);
    }
}

/// Extending a run of hexadecimal digits never shrinks its value.
proof fn lemma_hex_prefix_le(t: Seq<u8>, j: int)
    requires
        all_hex_digits(t),
        0 <= j <= t.len(),
    ensures
        hex_token_value(t.take(j)) <= hex_token_value(t.take(t.len() as int)),
    decreases t.len() - j,
{
    if j < t.len() {
        assert forall|i: int| 0 <= i < t.take(j).len() implies is_hex_digit(
            #[trigger] t.take(j)[i],
        ) by {
            assert(t.take(j)[i] == t[i]);
        }
        lemma_hex_value_nonneg(t.take(j));
        assert(t.take(j + 1).drop_last() =~= t.take(j));
        assert(t.take(j + 1).last() == t[j]);
        assert(t[j] == t.take(j + 1)[j]);
        assert(hex_token_value(t.take(j + 1)) == hex_token_value(t.take(j)) * 16
            + hex_digit_value(t[j]));
        assert(hex_digit_value(t[j]) >= 0);
        lemma_hex_prefix_le(t, j + 1);
    }
}

/// Parses a token as a base-16 integer, exactly as `spec_parse_hex` says.
pub fn parse_hex_i32(t: &Vec<u8>) -> (r: Option<i32>)
    ensures
        r == spec_parse_hex(t@),
{
    if t.len() == 0 {
        return None;
    }
    let mut acc: u64 = 0;
    let mut i: usize = 0;
    while i < t.len()
        invariant
            0 < t@.len(),
            i <= t@.len(),
            all_hex_digits(t@.take(i as int)),
            acc as int == hex_token_value(t@.take(i as int)),
            acc <= 0x7fff_ffff,
        decreases t@.len() - i,
    {
        let b = t[i];
        let d: u64 = if 48 <= b && b <= 57 {
            (b - 48) as u64
        } else if 65 <= b && b <= 70 {
            (b - 55) as u64
        } else if 97 <= b && b <= 102 {
            (b - 87) as u64
        } else {
            proof {
                assert(!is_hex_digit(t@[i as int]));
            }
            return None;
        };
        proof {
            assert(is_hex_digit(t@[i as int]));
            assert(d as int == hex_digit_value(t@[i as int]));
            assert(t@.take(i as int + 1).drop_last() =~= t@.take(i as int));
            assert(t@.take(i as int + 1).last() == t@[i as int]);
            assert forall|k: int| 0 <= k < i as int + 1 implies is_hex_digit(
                #[trigger] t@.take(i as int + 1)[k],
            ) by {
                assert(t@.take(i as int + 1)[k] == t@[k]);
                if k < i as int {
                    assert(t@.take(i as int)[k] == t@[k]);
                }
            }
        }
        let next = acc * 16 + d;
        if next > 0x7fff_ffff {
            proof {
                if all_hex_digits(t@) && hex_token_value(t@) <= i32::MAX {
                    assert(t@.take(t@.len() as int) =~= t@);
                    lemma_hex_prefix_le(t@, i as int + 1);
                    assert(false);
                }
            }
            return None;
        }
        acc = next;
        i = i + 1;
    }
    proof {
        assert(t@.take(t@.len() as int) =~= t@);
    }
    Some(acc as i32)
}

/// Splitting a byte sequence into whitespace-separated tokens, processed
/// left to right with `cur` the token under construction.
pub open spec fn split_tokens(s: Seq<u8>, cur: Seq<u8>) -> Seq<Seq<u8>>
    decreases s.len(),
{
    if s.len() == 0 {
        if cur.len() == 0 {
            seq![]
        } else {
            seq![cur]
        }
    } else if is_space(s[0]) {
        if cur.len() == 0 {
            split_tokens(s.skip(1), cur)
        } else {
            seq![cur] + split_tokens(s.skip(1), Seq::empty())
        }
    } else {
        split_tokens(s.skip(1), cur.push(s[0]))
    }
}

/// The maximal nonempty runs of non-whitespace bytes, in order.
pub open spec fn tokens_of(s: Seq<u8>) -> Seq<Seq<u8>> {
    split_tokens(s, Seq::empty())
}

/// Splits one line into its whitespace-separated tokens.
pub fn tokenize(line: &Vec<u8>) -> (r: Vec<Vec<u8>>)
    ensures
        r.deep_view() == tokens_of(line@),
{
    let mut out: Vec<Vec<u8>> = Vec::new();
    let mut cur: Vec<u8> = Vec::new();
    let mut i: usize = 0;
    proof {
        assert(line@.skip(0) =~= line@);
    }
    while i < line.len()
        invariant
            i <= line@.len(),
            out.deep_view() + split_tokens(line@.skip(i as int), cur@) == tokens_of(line@),
        decreases line@.len() - i,
    {
        let ghost pre_out = out.deep_view();
        let ghost pre_cur = cur@;
        let ghost rest = line@.skip(i as int);
        proof {
            assert(rest[0] == line@[i as int]);
            assert(rest.skip(1) =~= line@.skip(i as int + 1));
        }
        let b = line[i];
        if b == 32 || b == 9 || b == 13 {
            if cur.len() > 0 {
                out.push(cur);
                cur = Vec::new();
                proof {
                    assert(out.deep_view() =~~= pre_out.push(pre_cur));
                    assert(pre_out.push(pre_cur) + split_tokens(line@.skip(i as int + 1), cur@)
                        =~= pre_out + (seq![pre_cur] + split_tokens(
                        line@.skip(i as int + 1),
                        Seq::empty(),
                    )));
                }
            }
        } else {
            cur.push(b);
        }
        i = i + 1;
    }
    proof {
        assert(line@.skip(line@.len() as int) =~= Seq::<u8>::empty());
    }
    if cur.len() > 0 {
        let ghost pre_out = out.deep_view();
        let ghost pre_cur = cur@;
        out.push(cur);
        proof {
            assert(out.deep_view() =~~= pre_out.push(pre_cur));
            assert(pre_out.push(pre_cur) =~= pre_out + seq![pre_cur]);
        }
    } else {
        proof {
            assert(out.deep_view() + seq![] =~= out.deep_view());
        }
    }
    out
}

/// Splitting a byte sequence into lines at each line feed, processed left to
/// right with `cur` the line under construction. Empty lines are kept here
/// and skipped by the decoder.
pub open spec fn split_lines(s: Seq<u8>, cur: Seq<u8>) -> Seq<Seq<u8>>
    decreases s.len(),
{
    if s.len() == 0 {
        seq![cur]
    } else if s[0] == LF {
        seq![cur] + split_lines(s.skip(1), Seq::empty())
    } else {
        split_lines(s.skip(1), cur.push(s[0]))
    }
}

/// The lines of a response, split at each line feed.
pub open spec fn lines_of(s: Seq<u8>) -> Seq<Seq<u8>> {
    split_lines(s, Seq::empty())
}

/// Splits response text into its lines.
pub fn split_into_lines(bytes: &Vec<u8>) -> (r: Vec<Vec<u8>>)
    ensures
        r.deep_view() == lines_of(bytes@),
{
    let mut out: Vec<Vec<u8>> = Vec::new();
    let mut cur: Vec<u8> = Vec::new();
    let mut i: usize = 0;
    proof {
        assert(bytes@.skip(0) =~= bytes@);
    }
    while i < bytes.len()
        invariant
            i <= bytes@.len(),
            out.deep_view() + split_lines(bytes@.skip(i as int), cur@) == lines_of(bytes@),
        decreases bytes@.len() - i,
    {
        let ghost pre_out = out.deep_view();
        let ghost pre_cur = cur@;
        let ghost rest = bytes@.skip(i as int);
        proof {
            assert(rest[0] == bytes@[i as int]);
            assert(rest.skip(1) =~= bytes@.skip(i as int + 1));
        }
        let b = bytes[i];
        if b == LF {
            out.push(cur);
            cur = Vec::new();
            proof {
                assert(out.deep_view() =~~= pre_out.push(pre_cur));
                assert(pre_out.push(pre_cur) + split_lines(bytes@.skip(i as int + 1), cur@)
                    =~= pre_out + (seq![pre_cur] + split_lines(
                    bytes@.skip(i as int + 1),
                    Seq::empty(),
                )));
            }
        } else {
            cur.push(b);
        }
        i = i + 1;
    }
    proof {
        assert(bytes@.skip(bytes@.len() as int) =~= Seq::<u8>::empty());
    }
    let ghost pre_out = out.deep_view();
    let ghost pre_cur = cur@;
    out.push(cur);
    proof {
        assert(out.deep_view() =~~= pre_out.push(pre_cur));
        assert(pre_out.push(pre_cur) =~= pre_out + seq![pre_cur]);
    }
    out
}

/// A decode failure, always naming the block, token or line at fault.
#[derive(Debug)]
pub enum DecodeError {
    /// A line held no block identifier (at most an address); carries the
    /// line.
    NoBlock(Vec<u8>),
    /// A token could not be parsed as a base-16 integer; carries the token.
    BadHexToken(Vec<u8>),
    /// A block supplied fewer values than required; carries the block
    /// identifier and how many values it had.
    ShortBlock(Vec<u8>, usize),
    /// A required block was absent from the response; carries its
    /// identifier.
    MissingBlock(Vec<u8>),
}

/// `DecodeError` as mathematics.
pub enum DecodeFailure {
    NoBlock(Seq<u8>),
    BadHexToken(Seq<u8>),
    ShortBlock(Seq<u8>, int),
    MissingBlock(Seq<u8>),
}

impl View for DecodeError {
    type V = DecodeFailure;

    open spec fn view(&self) -> DecodeFailure {
        match self {
            DecodeError::NoBlock(l) => DecodeFailure::NoBlock(l@),
            DecodeError::BadHexToken(t) => DecodeFailure::BadHexToken(t@),
            DecodeError::ShortBlock(b, n) => DecodeFailure::ShortBlock(b@, *n as int),
            DecodeError::MissingBlock(b) => DecodeFailure::MissingBlock(b@),
        }
    }
}

/// What one line of a response means.
pub enum LineOutcome {
    /// Nothing but whitespace: skipped.
    Blank,
    /// An address token with no block identifier after it.
    NoBlock,
    /// Some value token was not hexadecimal; carries the first such token.
    BadToken(Seq<u8>),
    /// Fewer values than required; carries the block identifier and the
    /// count found.
    Short(Seq<u8>, int),
    /// A block identifier with its values, at least as many as required.
    Entry(Seq<u8>, Seq<i32>),
}

/// Parses every token as a base-16 integer, in order; the first failure
/// wins and names its token.
pub open spec fn parse_values(toks: Seq<Seq<u8>>) -> Result<Seq<i32>, Seq<u8>>
    decreases toks.len(),
{
    if toks.len() == 0 {
        Ok(seq![])
    } else {
        match spec_parse_hex(toks[0]) {
            None => Err(toks[0]),
            Some(v) => match parse_values(toks.skip(1)) {
                Err(t) => Err(t),
                Ok(rest) => Ok(seq![v] + rest),
            },
        }
    }
}

/// What decoding one line yields: the first token is a discarded address,
/// the second the block identifier, the rest base-16 values of which at
/// least `arity` must be present.
pub open spec fn parse_line(line: Seq<u8>, arity: int) -> LineOutcome {
    let toks = tokens_of(line);
    if toks.len() == 0 {
        LineOutcome::Blank
    } else if toks.len() == 1 {
        LineOutcome::NoBlock
    } else {
        match parse_values(toks.skip(2)) {
            Err(t) => LineOutcome::BadToken(t),
            Ok(vals) => if vals.len() < arity {
                LineOutcome::Short(toks[1], vals.len() as int)
            } else {
                LineOutcome::Entry(toks[1], vals)
            },
        }
    }
}

/// Folds the lines of a response, in order, into a mapping from block
/// identifier to values; a later line for the same block replaces the
/// earlier one, and the first failing line fails the whole decode.
pub open spec fn parse_frames(
    lines: Seq<Seq<u8>>,
    arity: int,
    acc: Map<Seq<u8>, Seq<i32>>,
) -> Result<Map<Seq<u8>, Seq<i32>>, DecodeFailure>
    decreases lines.len(),
{
    if lines.len() == 0 {
        Ok(acc)
    } else {
        match parse_line(lines[0], arity) {
            LineOutcome::Blank => parse_frames(lines.skip(1), arity, acc),
            LineOutcome::NoBlock => Err(DecodeFailure::NoBlock(lines[0])),
            LineOutcome::BadToken(t) => Err(DecodeFailure::BadHexToken(t)),
            LineOutcome::Short(b, n) => Err(DecodeFailure::ShortBlock(b, n)),
            LineOutcome::Entry(b, vals) => parse_frames(lines.skip(1), arity, acc.insert(b, vals)),
        }
    }
}

/// What decoding a whole response yields.
pub open spec fn spec_parse_multi_frame(bytes: Seq<u8>, arity: int) -> Result<
    Map<Seq<u8>, Seq<i32>>,
    DecodeFailure,
> {
    parse_frames(lines_of(bytes), arity, Map::<Seq<u8>, Seq<i32>>::empty())
}

/// Every value parsed from tokens is at least zero.
proof fn lemma_parse_values_nonneg(toks: Seq<Seq<u8>>)
    ensures
        (parse_values(toks) matches Ok(vs) ==> forall|i: int|
            0 <= i < vs.len() ==> #[trigger] vs[i] >= 0),
    decreases toks.len(),
{
    if toks.len() > 0 {
        match spec_parse_hex(toks[0]) {
            Some(v) => {
                lemma_hex_value_nonneg(toks[0]);
                lemma_parse_values_nonneg(toks.skip(1));
                if let Ok(rest) = parse_values(toks.skip(1)) {
                    let vs = seq![v] + rest;
                    assert forall|i: int| 0 <= i < vs.len() implies #[trigger] vs[i] >= 0 by {
                        if i > 0 {
                            assert(vs[i] == rest[i - 1]);
                        }
                    }
                }
            },
            None => {},
        }
    }
}

/// Folding lines preserves "every block has at least `arity` values, all of
/// them at least zero".
proof fn lemma_parse_frames_arity(lines: Seq<Seq<u8>>, arity: int, acc: Map<Seq<u8>, Seq<i32>>)
    requires
        forall|k: Seq<u8>| acc.contains_key(k) ==> (#[trigger] acc[k]).len() >= arity,
        forall|k: Seq<u8>, i: int|
            acc.contains_key(k) && 0 <= i < acc[k].len() ==> (#[trigger] acc[k][i]) >= 0,
    ensures
        (parse_frames(lines, arity, acc) matches Ok(m) ==> forall|k: Seq<u8>|
            m.contains_key(k) ==> (#[trigger] m[k]).len() >= arity),
        (parse_frames(lines, arity, acc) matches Ok(m) ==> forall|k: Seq<u8>, i: int|
            m.contains_key(k) && 0 <= i < m[k].len() ==> (#[trigger] m[k][i]) >= 0),
    decreases lines.len(),
{
    if lines.len() > 0 {
        match parse_line(lines[0], arity) {
            LineOutcome::Blank => {
                lemma_parse_frames_arity(lines.skip(1), arity, acc);
            },
            LineOutcome::Entry(b, vals) => {
                let toks = tokens_of(lines[0]);
                lemma_parse_values_nonneg(toks.skip(2));
                lemma_parse_frames_arity(lines.skip(1), arity, acc.insert(b, vals));
            },
            _ => {},
        }
    }
}

/// Every block of a successful decode supplies at least `arity` values, and
/// every value is at least zero (a hexadecimal token has no sign).
pub proof fn lemma_multi_frame_arity(bytes: Seq<u8>, arity: int)
    ensures
        (spec_parse_multi_frame(bytes, arity) matches Ok(m) ==> forall|k: Seq<u8>|
            m.contains_key(k) ==> (#[trigger] m[k]).len() >= arity),
        (spec_parse_multi_frame(bytes, arity) matches Ok(m) ==> forall|k: Seq<u8>, i: int|
            m.contains_key(k) && 0 <= i < m[k].len() ==> (#[trigger] m[k][i]) >= 0),
{
    lemma_parse_frames_arity(lines_of(bytes), arity, Map::<Seq<u8>, Seq<i32>>::empty());
}

/// The mapping built by `mfm_entries`: a later entry for the same key
/// replaces an earlier one.
pub open spec fn mfm_model(entries: Seq<(Vec<u8>, Vec<i32>)>) -> Map<Seq<u8>, Seq<i32>>
    decreases entries.len(),
{
    if entries.len() == 0 {
        Map::empty()
    } else {
        mfm_model(entries.drop_last()).insert(entries.last().0@, entries.last().1@)
    }
}

/// A key under no entry is not in the mapping.
proof fn lemma_mfm_absent(entries: Seq<(Vec<u8>, Vec<i32>)>, key: Seq<u8>)
    requires
        forall|i: int| 0 <= i < entries.len() ==> (#[trigger] entries[i]).0@ != key,
    ensures
        !mfm_model(entries).contains_key(key),
    decreases entries.len(),
{
    if entries.len() > 0 {
        let dl = entries.drop_last();
        assert forall|i: int| 0 <= i < dl.len() implies (#[trigger] dl[i]).0@ != key by {
            assert(dl[i] == entries[i]);
        }
        lemma_mfm_absent(dl, key);
        assert(entries[entries.len() - 1] == entries.last());
    }
}

/// The last entry for a key decides what the mapping holds under it.
proof fn lemma_mfm_found(entries: Seq<(Vec<u8>, Vec<i32>)>, i: int)
    requires
        0 <= i < entries.len(),
        forall|j: int| i < j < entries.len() ==> (#[trigger] entries[j]).0@ != entries[i].0@,
    ensures
        mfm_model(entries).contains_key(entries[i].0@),
        mfm_model(entries)[entries[i].0@] == entries[i].1@,
    decreases entries.len(),
{
    let last = entries.len() - 1;
    assert(entries[last] == entries.last());
    if i < last {
        let dl = entries.drop_last();
        assert forall|j: int| i < j < dl.len() implies (#[trigger] dl[j]).0@ != dl[i].0@ by {
            assert(dl[j] == entries[j]);
            assert(dl[i] == entries[i]);
        }
        assert(dl[i] == entries[i]);
        lemma_mfm_found(dl, i);
        assert(entries[last].0@ != entries[i].0@);
    }
}

/// The mapping from block identifier to decoded values, keys unique, one
/// value list per block.
pub struct MultiFrameMap {
    entries: Vec<(Vec<u8>, Vec<i32>)>,
}

impl View for MultiFrameMap {
    type V = Map<Seq<u8>, Seq<i32>>;

    closed spec fn view(&self) -> Map<Seq<u8>, Seq<i32>> {
        mfm_model(self.entries@)
    }
}

impl MultiFrameMap {
    /// An empty mapping.
    pub fn new() -> (r: MultiFrameMap)
        ensures
            r@ == Map::<Seq<u8>, Seq<i32>>::empty(),
    {
        MultiFrameMap { entries: Vec::new() }
    }

    /// Binds `key` to `values`, replacing any earlier binding.
    pub fn insert(&mut self, key: Vec<u8>, values: Vec<i32>)
        ensures
            final(self)@ == old(self)@.insert(key@, values@),
    {
        let ghost gkey = key@;
        let ghost gvalues = values@;
        let ghost pre = self.entries@;
        self.entries.push((key, values));
        proof {
            assert(self.entries@.drop_last() =~= pre);
            assert(self.entries@.last().0@ == gkey);
            assert(self.entries@.last().1@ == gvalues);
        }
    }

    /// Looks a block identifier up.
    pub fn get(&self, key: &Vec<u8>) -> (r: Option<&Vec<i32>>)
        ensures
            self@.contains_key(key@) ==> (r matches Some(v) && v@ == self@[key@]),
            !self@.contains_key(key@) ==> r is None,
    {
        let n = self.entries.len();
        let mut j: usize = n;
        while j > 0
            invariant
                j <= n,
                n == self.entries@.len(),
                forall|k: int| j <= k < n ==> (#[trigger] self.entries@[k]).0@ != key@,
            decreases j,
        {
            j = j - 1;
            if bytes_eq(&self.entries[j].0, key) {
                proof {
                    lemma_mfm_found(self.entries@, j as int);
                }
                return Some(&self.entries[j].1);
            }
        }
        proof {
            lemma_mfm_absent(self.entries@, key@);
        }
        None
    }
}

/// Decodes a whole response: splits it into lines, and each line into an
/// address token, a block identifier and at least `arity` base-16 values,
/// exactly as `spec_parse_multi_frame` says.
pub fn parse_multi_frame_response(response: &Vec<u8>, arity: usize) -> (r: Result<
    MultiFrameMap,
    DecodeError,
>)
    ensures
        (match spec_parse_multi_frame(response@, arity as int) {
            Ok(m) => r matches Ok(mm) && mm@ == m,
            Err(f) => r matches Err(e) && e@ == f,
        }),
{
    let lines = split_into_lines(response);
    let ghost all_lines = lines.deep_view();
    let mut map = MultiFrameMap::new();
    let line_count = lines.len();
    let mut li: usize = 0;
    proof {
        assert(all_lines.skip(0) =~= all_lines);
    }
    while li < line_count
        invariant
            li <= line_count,
            line_count == lines@.len(),
            all_lines == lines.deep_view(),
            all_lines == lines_of(response@),
            parse_frames(all_lines.skip(li as int), arity as int, map@) == spec_parse_multi_frame(
                response@,
                arity as int,
            ),
        decreases line_count - li,
    {
        let ghost rest = all_lines.skip(li as int);
        proof {
            assert(rest[0] == all_lines[li as int]);
            assert(rest.skip(1) =~= all_lines.skip(li as int + 1));
            assert(lines@[li as int]@ == all_lines[li as int]);
        }
        let line = &lines[li];
        let toks = tokenize(line);
        let ghost dv = toks.deep_view();
        let tok_count = toks.len();
        if tok_count == 0 {
            // a blank line: skipped
        } else if tok_count == 1 {
            proof {
                assert(parse_line(line@, arity as int) == LineOutcome::NoBlock);
            }
            return Err(DecodeError::NoBlock(clone_bytes(line)));
        } else {
            let mut vals: Vec<i32> = Vec::new();
            let mut ti: usize = 2;
            proof {
                assert(dv.skip(2).skip(0) =~= dv.skip(2));
            }
            while ti < tok_count
                invariant
                    2 <= ti <= tok_count,
                    tok_count == toks@.len(),
                    dv == toks.deep_view(),
                    dv == tokens_of(line@),
                    li < line_count,
                    line_count == all_lines.len(),
                    all_lines == lines_of(response@),
                    all_lines[li as int] == line@,
                    parse_frames(all_lines.skip(li as int), arity as int, map@)
                        == spec_parse_multi_frame(response@, arity as int),
                    (match parse_values(dv.skip(ti as int)) {
                        Ok(rest_vals) => parse_values(dv.skip(2)) == Ok::<Seq<i32>, Seq<u8>>(
                            vals@ + rest_vals,
                        ),
                        Err(t) => parse_values(dv.skip(2)) == Err::<Seq<i32>, Seq<u8>>(t),
                    }),
                decreases tok_count - ti,
            {
                let ghost trest = dv.skip(ti as int);
                proof {
                    assert(trest[0] == dv[ti as int]);
                    assert(trest.skip(1) =~= dv.skip(ti as int + 1));
                    assert(toks@[ti as int]@ == dv[ti as int]);
                }
                let ghost pre_vals = vals@;
                match parse_hex_i32(&toks[ti]) {
                    Some(v) => {
                        vals.push(v);
                        proof {
                            if let Ok(rest_vals) = parse_values(dv.skip(ti as int + 1)) {
                                assert(pre_vals + (seq![v] + rest_vals) =~= vals@ + rest_vals);
                            }
                        }
                    },
                    None => {
                        proof {
                            assert(parse_values(dv.skip(2)) == Err::<Seq<i32>, Seq<u8>>(
                                dv[ti as int],
                            ));
                            assert(parse_line(line@, arity as int) == LineOutcome::BadToken(
                                dv[ti as int],
                            ));
                            assert(all_lines.skip(li as int)[0] == all_lines[li as int]);
                        }
                        return Err(DecodeError::BadHexToken(clone_bytes(&toks[ti])));
                    },
                }
                ti = ti + 1;
            }
            proof {
                assert(dv.skip(tok_count as int) =~= Seq::<Seq<u8>>::empty());
                assert(parse_values(dv.skip(tok_count as int)) == Ok::<Seq<i32>, Seq<u8>>(seq![]));
                assert(vals@ + seq![] =~= vals@);
                assert(parse_values(dv.skip(2)) == Ok::<Seq<i32>, Seq<u8>>(vals@));
                assert(toks@[1]@ == dv[1]);
            }
            if vals.len() < arity {
                proof {
                    assert(parse_line(line@, arity as int) == LineOutcome::Short(
                        dv[1],
                        vals@.len() as int,
                    ));
                }
                return Err(DecodeError::ShortBlock(clone_bytes(&toks[1]), vals.len()));
            }
            proof {
                assert(parse_line(line@, arity as int) == LineOutcome::Entry(dv[1], vals@));
            }
            let block = clone_bytes(&toks[1]);
            map.insert(block, vals);
        }
        li = li + 1;
    }
    proof {
        assert(all_lines.skip(line_count as int) =~= Seq::<Seq<u8>>::empty());
    }
    Ok(map)
}

} // verus!
