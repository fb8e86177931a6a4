use vstd::prelude::*;
use crate::alphabet::{Alphabet, in_len, out_len, code_of, PAD_CODE, SPACE_CODE, INVALID_CODE};
use crate::error::CodecError;

verus! {

/// Where a decoder stands.
#[derive(Clone, Copy, Debug, PartialEq, Eq, Structural)]
pub enum Phase {
    /// More input may follow.
    Running,
    /// A final padded group ended a garbage-tolerant decode; the rest of the
    /// input is not looked at.
    Done,
    /// The input is malformed.
    Failed,
}

/// The abstract state of a decode: the bytes decoded so far, whether a final
/// padded group has been read, and the phase.
pub struct Progress {
    pub out: Seq<u8>,
    pub ended: bool,
    pub phase: Phase,
}

/// The class codes that a decoder keeps (data and padding) among the codes `w`,
/// in order.
pub open spec fn kept_codes(w: Seq<u8>) -> Seq<u8>
    decreases w.len(),
{
    if w.len() == 0 {
        Seq::empty()
    } else if w.last() <= PAD_CODE {
        kept_codes(w.drop_last()).push(w.last())
    } else {
        kept_codes(w.drop_last())
    }
}

/// The class codes of the input bytes `p`.
pub open spec fn codes(a: Alphabet, p: Seq<u8>) -> Seq<u8> {
    p.map_values(|b: u8| code_of(a, b))
}

/// The data and padding symbols of `p`, as codes, in order: whitespace and
/// invalid bytes left out.
pub open spec fn kept(a: Alphabet, p: Seq<u8>) -> Seq<u8> {
    kept_codes(codes(a, p))
}

/// `p` holds a byte that is neither a symbol, padding nor whitespace.
pub open spec fn has_invalid(a: Alphabet, p: Seq<u8>) -> bool {
    exists|i: int| 0 <= i < p.len() && code_of(a, #[trigger] p[i]) == INVALID_CODE
}

/// Every code of `g` stands for data.
pub open spec fn all_data(g: Seq<u8>) -> bool {
    forall|i: int| 0 <= i < g.len() ==> #[trigger] g[i] < PAD_CODE
}

/// The bytes of a whole group of data codes, the inverse of the encoder's
/// bit packing.
pub open spec fn group_bytes(a: Alphabet, g: Seq<u8>) -> Seq<u8> {
    match a {
        Alphabet::Base64 => seq![
            (g[0] << 2u8) | (g[1] >> 4u8),
            (g[1] << 4u8) | (g[2] >> 2u8),
            (g[2] << 6u8) | g[3],
        ],
        Alphabet::Base32 => seq![
            (g[0] << 3u8) | (g[1] >> 2u8),
            (g[1] << 6u8) | (g[2] << 1u8) | (g[3] >> 4u8),
            (g[3] << 4u8) | (g[4] >> 1u8),
            (g[4] << 7u8) | (g[5] << 2u8) | (g[6] >> 3u8),
            (g[6] << 5u8) | g[7],
        ],
    }
}

/// `g` is `k` data codes followed by padding only.
pub open spec fn padded_at(g: Seq<u8>, k: int) -> bool {
    &&& 0 <= k <= g.len()
    &&& forall|i: int| 0 <= i < k ==> #[trigger] g[i] < PAD_CODE
    &&& forall|i: int| k <= i < g.len() ==> #[trigger] g[i] == PAD_CODE
}

/// The bytes of a final group: `Some` when it is as many data symbols as a
/// partial group encodes to, followed by padding (two or three symbols for
/// base64; two, four, five or seven for base32), and `None` for any other
/// arrangement of padding.
pub open spec fn final_bytes(a: Alphabet, g: Seq<u8>) -> Option<Seq<u8>> {
    match a {
        Alphabet::Base64 => {
            if padded_at(g, 3) {
                Some(group_bytes(a, g).take(2))
            } else if padded_at(g, 2) {
                Some(group_bytes(a, g).take(1))
            } else {
                None
            }
        },
        Alphabet::Base32 => {
            if padded_at(g, 7) {
                Some(group_bytes(a, g).take(4))
            } else if padded_at(g, 5) {
                Some(group_bytes(a, g).take(3))
            } else if padded_at(g, 4) {
                Some(group_bytes(a, g).take(2))
            } else if padded_at(g, 2) {
                Some(group_bytes(a, g).take(1))
            } else {
                None
            }
        },
    }
}

/// The state before any group.
pub open spec fn initial() -> Progress {
    Progress { out: Seq::empty(), ended: false, phase: Phase::Running }
}

/// One whole group read in state `s`. A group of data decodes to whole bytes
/// unless a final group came before, which fails. A group with padding is a
/// final group: it fails unless its padding is well placed, and ends a
/// garbage-tolerant decode.
pub open spec fn step(a: Alphabet, ignore_garbage: bool, s: Progress, g: Seq<u8>) -> Progress {
    if s.phase != Phase::Running {
        s
    } else if s.ended {
        Progress { phase: Phase::Failed, ..s }
    } else if all_data(g) {
        Progress { out: s.out + group_bytes(a, g), ..s }
    } else {
        match final_bytes(a, g) {
            None => Progress { phase: Phase::Failed, ..s },
            Some(b) => Progress {
                out: s.out + b,
                ended: true,
                phase: if ignore_garbage { Phase::Done } else { Phase::Running },
            },
        }
    }
}

/// The state after the first `k` whole groups of the kept codes `t`.
pub open spec fn run(a: Alphabet, ignore_garbage: bool, t: Seq<u8>, k: nat) -> Progress
    decreases k,
{
    if k == 0 {
        initial()
    } else {
        let m = out_len(a) as int;
        step(a, ignore_garbage, run(a, ignore_garbage, t, (k - 1) as nat), t.subrange(m * (k - 1), m * k))
    }
}

/// The state after reading the input bytes `p`: every whole group of its
/// kept symbols has been read.
pub open spec fn progress(a: Alphabet, ignore_garbage: bool, p: Seq<u8>) -> Progress {
    let t = kept(a, p);
    run(a, ignore_garbage, t, t.len() / out_len(a))
}

/// The result of decoding `p`. Without `ignore_garbage`, an invalid byte
/// anywhere fails; so does malformed padding or a second final group. A
/// trailing partial group of valid symbols adds nothing.
pub open spec fn decode_spec(a: Alphabet, p: Seq<u8>, ignore_garbage: bool) -> Result<Seq<u8>, CodecError> {
    let s = progress(a, ignore_garbage, p);
    if s.phase == Phase::Failed || (!ignore_garbage && has_invalid(a, p)) {
        Err(CodecError::InvalidInput)
    } else {
        Ok(s.out)
    }
}

/// Kept codes of a longer input.
pub proof fn lemma_kept_push(a: Alphabet, p: Seq<u8>, b: u8)
    ensures
        codes(a, p.push(b)) == codes(a, p).push(code_of(a, b)),
        kept(a, p.push(b)) == if code_of(a, b) <= PAD_CODE {
            kept(a, p).push(code_of(a, b))
        } else {
            kept(a, p)
        },
        has_invalid(a, p.push(b)) == (has_invalid(a, p) || code_of(a, b) == INVALID_CODE),
{
    assert(codes(a, p.push(b)) =~= codes(a, p).push(code_of(a, b)));
    assert(codes(a, p.push(b)).drop_last() == codes(a, p));
    if has_invalid(a, p) {
        let i = choose|i: int| 0 <= i < p.len() && code_of(a, #[trigger] p[i]) == INVALID_CODE;
        assert(p.push(b)[i] == p[i]);
    }
    if code_of(a, b) == INVALID_CODE {
        assert(p.push(b)[p.len() as int] == b);
    }
    if has_invalid(a, p.push(b)) {
        let i = choose|i: int| 0 <= i < p.len() + 1 && code_of(a, #[trigger] p.push(b)[i]) == INVALID_CODE;
        if i < p.len() {
            assert(p.push(b)[i] == p[i]);
        }
    }
}

/// The first `k` groups depend only on the codes they are made of.
pub proof fn lemma_run_prefix(a: Alphabet, ig: bool, t1: Seq<u8>, t2: Seq<u8>, k: nat)
    requires
        out_len(a) * k <= t1.len(),
        out_len(a) * k <= t2.len(),
        t1.take((out_len(a) * k) as int) == t2.take((out_len(a) * k) as int),
    ensures
        run(a, ig, t1, k) == run(a, ig, t2, k),
    decreases k,
{
    if k > 0 {
        let m = out_len(a) as int;
        assert(m * (k - 1) <= m * k) by (nonlinear_arith)
            requires
                m > 0,
        ;
        assert(t1.take(m * (k - 1)) == t1.take(m * k).take(m * (k - 1)));
        assert(t2.take(m * (k - 1)) == t2.take(m * k).take(m * (k - 1)));
        lemma_run_prefix(a, ig, t1, t2, (k - 1) as nat);
        assert(t1.subrange(m * (k - 1), m * k) == t1.take(m * k).subrange(m * (k - 1), m * k));
        assert(t2.subrange(m * (k - 1), m * k) == t2.take(m * k).subrange(m * (k - 1), m * k));
    }
}

/// Once a decode has stopped, further groups change nothing.
pub proof fn lemma_run_stopped(a: Alphabet, ig: bool, t: Seq<u8>, k: nat, k2: nat)
    requires
        k <= k2,
        run(a, ig, t, k).phase != Phase::Running,
    ensures
        run(a, ig, t, k2) == run(a, ig, t, k),
    decreases k2,
{
    if k2 > k {
        lemma_run_stopped(a, ig, t, k, (k2 - 1) as nat);
    }
}

/// How the number of whole groups grows with one more kept code.
pub proof fn lemma_groups_push(a: Alphabet, t: Seq<u8>, c: u8)
    ensures
        ({
            let m = out_len(a) as int;
            let g = t.len() / out_len(a);
            &&& m * g <= t.len()
            &&& t.len() - m * g < m
            &&& (t.len() - m * g + 1 < m ==> t.push(c).len() / out_len(a) == g)
            &&& (t.len() - m * g + 1 == m ==> t.push(c).len() / out_len(a) == g + 1
                && t.push(c).len() == m * (g + 1))
        }),
{
    match a {
        Alphabet::Base64 => {},
        Alphabet::Base32 => {},
    }
}


/// Once a decode has stopped, one more byte changes nothing.
pub proof fn lemma_progress_push_stopped(a: Alphabet, ig: bool, p: Seq<u8>, b: u8)
    requires
        progress(a, ig, p).phase != Phase::Running,
    ensures
        progress(a, ig, p.push(b)) == progress(a, ig, p),
{
    let t = kept(a, p);
    let c = code_of(a, b);
    lemma_kept_push(a, p, b);
    if c <= PAD_CODE {
        let m = out_len(a) as int;
        let g = t.len() / out_len(a);
        lemma_groups_push(a, t, c);
        let t2 = t.push(c);
        assert(t2.take(m * g) == t.take(m * g));
        lemma_run_prefix(a, ig, t2, t, g);
        lemma_run_stopped(a, ig, t2, g, t2.len() / out_len(a));
    }
}

/// Once a decode has stopped, later bytes change nothing.
pub proof fn lemma_progress_stopped(a: Alphabet, ig: bool, p: Seq<u8>, q: Seq<u8>)
    requires
        progress(a, ig, p).phase != Phase::Running,
    ensures
        progress(a, ig, p + q) == progress(a, ig, p),
    decreases q.len(),
{
    if q.len() == 0 {
        assert(p + q == p);
    } else {
        lemma_progress_stopped(a, ig, p, q.drop_last());
        assert(p + q == (p + q.drop_last()).push(q.last()));
        lemma_progress_push_stopped(a, ig, p + q.drop_last(), q.last());
    }
}

/// An invalid byte stays in a longer input.
pub proof fn lemma_invalid_extends(a: Alphabet, p: Seq<u8>, q: Seq<u8>)
    requires
        has_invalid(a, p),
    ensures
        has_invalid(a, p + q),
{
    let i = choose|i: int| 0 <= i < p.len() && code_of(a, #[trigger] p[i]) == INVALID_CODE;
    assert((p + q)[i] == p[i]);
}

/// Appends the first `n` bytes that the whole group `g` decodes to.
fn push_group_bytes(a: Alphabet, g: &[u8], n: usize, out: &mut Vec<u8>)
    requires
        g@.len() == out_len(a),
        n <= in_len(a),
    ensures
        final(out)@ == old(out)@ + group_bytes(a, g@).take(n as int),
{
    let ghost start = out@;
    let mut bytes: Vec<u8> = Vec::new();
    match a {
        Alphabet::Base64 => {
            bytes.push((g[0] << 2) | (g[1] >> 4));
            bytes.push((g[1] << 4) | (g[2] >> 2));
            bytes.push((g[2] << 6) | g[3]);
        },
        Alphabet::Base32 => {
            bytes.push((g[0] << 3) | (g[1] >> 2));
            bytes.push((g[1] << 6) | (g[2] << 1) | (g[3] >> 4));
            bytes.push((g[3] << 4) | (g[4] >> 1));
            bytes.push((g[4] << 7) | (g[5] << 2) | (g[6] >> 3));
            bytes.push((g[6] << 5) | g[7]);
        },
    }
    assert(bytes@ =~= group_bytes(a, g@));
    let mut i: usize = 0;
    while i < n
        invariant
            n <= bytes@.len(),
            i <= n,
            out@ == start + bytes@.take(i as int),
        decreases n - i,
    {
        out.push(bytes[i]);
        i += 1;
        assert(bytes@.take(i as int) == bytes@.take(i - 1) + seq![bytes@[i - 1]]);
    }
}

/// Decodes a final group: appends its bytes and returns `true` when its
/// padding is well placed, returns `false` and appends nothing otherwise.
fn push_final_bytes(a: Alphabet, g: &[u8], out: &mut Vec<u8>) -> (ok: bool)
    requires
        g@.len() == out_len(a),
    ensures
        ok == final_bytes(a, g@).is_some(),
        ok ==> final(out)@ == old(out)@ + final_bytes(a, g@).unwrap(),
        !ok ==> final(out)@ == old(out)@,
{
    let m = a.word_len();
    let mut k: usize = 0;
    while k < m && g[k] < PAD_CODE
        invariant
            m == g@.len(),
            k <= m,
            forall|i: int| 0 <= i < k ==> #[trigger] g@[i] < PAD_CODE,
        decreases m - k,
    {
        k += 1;
    }
    let mut j: usize = k;
    let mut padded: bool = true;
    while j < m
        invariant
            m == g@.len(),
            k <= j <= m,
            padded == (forall|i: int| k <= i < j ==> #[trigger] g@[i] == PAD_CODE),
        decreases m - j,
    {
        if g[j] != PAD_CODE {
            padded = false;
        }
        j += 1;
    }
    assert(forall|k2: int| #[trigger] padded_at(g@, k2) ==> k2 == k) by {
        assert forall|k2: int| #[trigger] padded_at(g@, k2) implies k2 == k by {
            if k2 < k {
                assert(g@[k2] < PAD_CODE);
            } else if k2 > k {
                assert(g@[k as int] < PAD_CODE);
            }
        }
    }
    assert(padded == padded_at(g@, k as int));
    if !padded {
        return false;
    }
    let n: usize = match a {
        Alphabet::Base64 => if k == 3 {
            2
        } else if k == 2 {
            1
        } else {
            0
        },
        Alphabet::Base32 => if k == 7 {
            4
        } else if k == 5 {
            3
        } else if k == 4 {
            2
        } else if k == 2 {
            1
        } else {
            0
        },
    };
    if n == 0 {
        return false;
    }
    push_group_bytes(a, g, n, out);
    true
}


/// A streaming decoder: encoded bytes go in by `feed`, and `finish` says
/// whether the input as a whole was well formed.
pub struct Decoder {
    alphabet: Alphabet,
    ignore_garbage: bool,
    word: Vec<u8>,
    ended: bool,
    phase: Phase,
    consumed: Ghost<Seq<u8>>,
}

impl Decoder {
    /// The alphabet this decoder reads.
    pub closed spec fn alphabet_spec(&self) -> Alphabet {
        self.alphabet
    }

    /// Whether invalid bytes are skipped.
    pub closed spec fn ignore_garbage_spec(&self) -> bool {
        self.ignore_garbage
    }

    /// All bytes given to the decoder so far.
    pub closed spec fn consumed(&self) -> Seq<u8> {
        self.consumed@
    }

    /// The state matches the bytes consumed. While running, the word holds
    /// the codes read since the last whole group, and its kept codes are the
    /// unfinished group; without `ignore_garbage`, an invalid byte can only be
    /// in the word. A failed decoder has seen malformed input.
    pub closed spec fn wf(&self) -> bool {
        let a = self.alphabet;
        let ig = self.ignore_garbage;
        let p = self.consumed@;
        let s = progress(a, ig, p);
        let t = kept(a, p);
        let m = out_len(a) as int;
        if self.phase == Phase::Failed {
            s.phase == Phase::Failed || (!ig && has_invalid(a, p))
        } else {
            &&& self.phase == s.phase
            &&& self.ended == s.ended
            &&& self.phase == Phase::Done ==> ig
            &&& self.phase == Phase::Running ==> {
                &&& self.word@.len() < m
                &&& kept_codes(self.word@) == t.skip(m * (t.len() / out_len(a)))
                &&& forall|i: int|
                    0 <= i < self.word@.len() ==> #[trigger] self.word@[i] <= PAD_CODE
                        || self.word@[i] == SPACE_CODE || self.word@[i] == INVALID_CODE
                &&& !ig ==> (has_invalid(a, p) <==> self.word@.contains(INVALID_CODE))
            }
        }
    }

    /// A new decoder.
    pub fn new(alphabet: Alphabet, ignore_garbage: bool) -> (r: Decoder)
        ensures
            r.wf(),
            r.alphabet_spec() == alphabet,
            r.ignore_garbage_spec() == ignore_garbage,
            r.consumed() == Seq::<u8>::empty(),
    {
        let r = Decoder {
            alphabet,
            ignore_garbage,
            word: Vec::new(),
            ended: false,
            phase: Phase::Running,
            consumed: Ghost(Seq::empty()),
        };
        proof {
            let p = Seq::<u8>::empty();
            assert(codes(alphabet, p) =~= Seq::<u8>::empty());
            assert(kept(alphabet, p) == Seq::<u8>::empty());
            assert(!has_invalid(alphabet, p));
            assert(!r.word@.contains(INVALID_CODE));
            assert(kept(alphabet, p).len() == 0);
            assert(progress(alphabet, ignore_garbage, p) == initial());
            assert(kept(alphabet, p).skip(0) == Seq::<u8>::empty());
        }
        r
    }

    /// Reads one byte while running.
    #[verifier::rlimit(40)]
    fn push_byte(&mut self, b: u8, out: &mut Vec<u8>) -> (r: Result<bool, CodecError>)
        requires
            old(self).wf(),
            old(self).phase == Phase::Running,
        ensures
            final(self).wf(),
            final(self).alphabet == old(self).alphabet,
            final(self).ignore_garbage == old(self).ignore_garbage,
            final(self).consumed@ == old(self).consumed@.push(b),
            match r {
                Ok(done) => {
                    let a = old(self).alphabet;
                    let ig = old(self).ignore_garbage;
                    let o0 = progress(a, ig, old(self).consumed@).out;
                    let o1 = progress(a, ig, final(self).consumed@).out;
                    &&& final(self).phase == if done { Phase::Done } else { Phase::Running }
                    &&& final(out)@ == old(out)@ + o1.skip(o0.len() as int)
                    &&& o1 == o0 + final(out)@.skip(old(out)@.len() as int)
                },
                Err(e) => e == CodecError::InvalidInput && final(self).phase == Phase::Failed,
            },
    {
        let a = self.alphabet;
        let ig = self.ignore_garbage;
        let ghost p = self.consumed@;
        let ghost t = kept(a, p);
        let ghost s = progress(a, ig, p);
        let ghost mi = out_len(a) as int;
        let ghost g = t.len() / out_len(a);
        let ghost before = out@;
        let c = a.classify(b);
        let ghost p2 = p.push(b);
        let ghost t2 = kept(a, p2);
        proof {
            lemma_kept_push(a, p, b);
            lemma_groups_push(a, t, c);
            crate::alphabet::lemma_code_range(a, b);
            assert(t.take(mi * g) == t2.take(mi * g));
        }
        let ghost w0 = self.word@;
        self.word.push(c);
        self.consumed = Ghost(p2);
        proof {
            assert(self.word@.drop_last() == w0);
            assert(kept_codes(self.word@) == if c <= PAD_CODE { kept_codes(w0).push(c) } else { kept_codes(w0) });
            if c <= PAD_CODE {
                assert(t2.skip(mi * g) == t.skip(mi * g).push(c));
            }
            assert(self.word@.contains(INVALID_CODE) == (w0.contains(INVALID_CODE) || c == INVALID_CODE)) by {
                if c == INVALID_CODE {
                    assert(self.word@[w0.len() as int] == c);
                }
                if w0.contains(INVALID_CODE) {
                    let i = choose|i: int| 0 <= i < w0.len() && w0[i] == INVALID_CODE;
                    assert(self.word@[i] == w0[i]);
                }
            }
        }
        let m = a.word_len();
        if self.word.len() < m {
            proof {
                lemma_run_prefix(a, ig, t, t2, g);
                lemma_kept_codes_len(self.word@);
                assert(t2.len() / out_len(a) == g);
                assert(out@.skip(before.len() as int) == Seq::<u8>::empty());
            }
            return Ok(false);
        }
        // The word is full: its kept codes, once whitespace and garbage are
        // gone, may be a whole group.
        proof {
            lemma_kept_codes_len(self.word@);
        }
        if all_data_codes(self.word.as_slice()) && !self.ended {
            proof {
                lemma_kept_codes_all(self.word@);
                assert(t2.len() == mi * (g + 1));
                assert(t2.subrange(mi * g, mi * (g + 1)) == t2.skip(mi * g));
                lemma_run_prefix(a, ig, t, t2, g);
            }
            push_group_bytes(a, self.word.as_slice(), a.group_len(), out);
            proof {
                assert(group_bytes(a, self.word@).take(in_len(a) as int) == group_bytes(a, self.word@));
                assert(t2.skip(mi * (g + 1)) == Seq::<u8>::empty());
                assert(!self.word@.contains(INVALID_CODE)) by {
                    if self.word@.contains(INVALID_CODE) {
                        let j = choose|j: int| 0 <= j < self.word@.len() && self.word@[j] == INVALID_CODE;
                        assert(self.word@[j] < PAD_CODE);
                    }
                }
            }
            self.word.clear();
            proof {
                assert(kept_codes(self.word@) == Seq::<u8>::empty());
                assert(!self.word@.contains(INVALID_CODE));
            }
            return Ok(false);
        }
        let w2 = match clean_word(self.word.as_slice(), ig) {
            Some(w2) => w2,
            None => {
                self.phase = Phase::Failed;
                return Err(CodecError::InvalidInput);
            },
        };
        let ghost full_word = self.word@;
        self.word = w2;
        proof {
            lemma_kept_codes_shape(full_word);
            assert(self.word@ == kept_codes(full_word));
            lemma_kept_codes_all(self.word@);
            assert(!self.word@.contains(INVALID_CODE)) by {
                if self.word@.contains(INVALID_CODE) {
                    let j = choose|j: int| 0 <= j < self.word@.len() && self.word@[j] == INVALID_CODE;
                    assert(self.word@[j] <= PAD_CODE);
                }
            }
        }
        if self.word.len() < m {
            proof {
                lemma_run_prefix(a, ig, t, t2, g);
                assert(t2.len() / out_len(a) == g);
                assert(out@.skip(before.len() as int) == Seq::<u8>::empty());
            }
            return Ok(false);
        }
        // A whole group that is not plain data: a final group.
        proof {
            assert(t2.len() == mi * (g + 1));
            assert(t2.subrange(mi * g, mi * (g + 1)) == t2.skip(mi * g));
            lemma_run_prefix(a, ig, t, t2, g);
            lemma_kept_codes_full(full_word);
            assert(self.word@ == full_word);
            assert(!(all_data(self.word@) && !self.ended));
        }
        if self.ended {
            self.phase = Phase::Failed;
            return Err(CodecError::InvalidInput);
        }
        let ok = push_final_bytes(a, self.word.as_slice(), out);
        if !ok {
            self.phase = Phase::Failed;
            return Err(CodecError::InvalidInput);
        }
        self.ended = true;
        proof {
            assert(t2.skip(mi * (g + 1)) == Seq::<u8>::empty());
            assert(!self.word@.contains(INVALID_CODE)) by {
                if self.word@.contains(INVALID_CODE) {
                    let j = choose|j: int| 0 <= j < self.word@.len() && self.word@[j] == INVALID_CODE;
                    assert(kept_codes(self.word@)[j] <= PAD_CODE);
                }
            }
        }
        self.word.clear();
        proof {
            assert(kept_codes(self.word@) == Seq::<u8>::empty());
            assert(!self.word@.contains(INVALID_CODE));
        }
        if ig {
            self.phase = Phase::Done;
            Ok(true)
        } else {
            Ok(false)
        }
    }

    /// Reads `chunk`. Returns `Ok(true)` once a garbage-tolerant decode has
    /// read its final group (what follows is not looked at), `Ok(false)` while
    /// more input may follow, and an error as soon as the input is known to be
    /// malformed. The bytes decoded are appended to `out`.
    pub fn feed(&mut self, chunk: &[u8], out: &mut Vec<u8>) -> (r: Result<bool, CodecError>)
        requires
            old(self).wf(),
        ensures
            final(self).wf(),
            final(self).alphabet_spec() == old(self).alphabet_spec(),
            final(self).ignore_garbage_spec() == old(self).ignore_garbage_spec(),
            final(self).consumed() == old(self).consumed() + chunk@,
            ({
                let a = old(self).alphabet_spec();
                let ig = old(self).ignore_garbage_spec();
                let s0 = progress(a, ig, old(self).consumed());
                let s1 = progress(a, ig, final(self).consumed());
                match r {
                    Ok(done) => {
                        &&& s1.phase == if done { Phase::Done } else { Phase::Running }
                        &&& final(out)@ == old(out)@ + s1.out.skip(s0.out.len() as int)
                        &&& s1.out == s0.out + final(out)@.skip(old(out)@.len() as int)
                    },
                    Err(e) => {
                        &&& e == CodecError::InvalidInput
                        &&& s1.phase == Phase::Failed || (!ig && has_invalid(a, final(self).consumed()))
                    },
                }
            }),
    {
        let a = self.alphabet;
        let ig = self.ignore_garbage;
        let ghost p0 = self.consumed@;
        let ghost o0 = progress(a, ig, p0).out;
        let ghost out0 = out@;
        if self.phase != Phase::Running {
            proof {
                if self.phase == Phase::Failed && !(progress(a, ig, p0).phase == Phase::Failed) {
                    lemma_invalid_extends(a, p0, chunk@);
                } else {
                    lemma_progress_stopped(a, ig, p0, chunk@);
                }
            }
            self.consumed = Ghost(p0 + chunk@);
            assert(out@.skip(out0.len() as int) == Seq::<u8>::empty());
            if self.phase == Phase::Done {
                return Ok(true);
            } else {
                return Err(CodecError::InvalidInput);
            }
        }
        let mut i: usize = 0;
        while i < chunk.len()
            invariant
                self.wf(),
                self.alphabet == a,
                self.ignore_garbage == ig,
                a == old(self).alphabet,
                ig == old(self).ignore_garbage,
                p0 == old(self).consumed@,
                out0 == old(out)@,
                self.phase == Phase::Running,
                i <= chunk@.len(),
                self.consumed@ == p0 + chunk@.take(i as int),
                o0 == progress(a, ig, p0).out,
                out@ == out0 + progress(a, ig, self.consumed@).out.skip(o0.len() as int),
                progress(a, ig, self.consumed@).out == o0 + out@.skip(out0.len() as int),
            decreases chunk@.len() - i,
        {
            let ghost p = self.consumed@;
            let ghost before = out@;
            let r = self.push_byte(chunk[i], out);
            proof {
                assert(p0 + chunk@.take(i + 1) == p.push(chunk@[i as int]));
            }
            match r {
                Ok(done) => {
                    proof {
                        let o2 = progress(a, ig, self.consumed@).out;
                        assert(o2 == o0 + out@.skip(out0.len() as int));
                        assert(out@ == out0 + o2.skip(o0.len() as int));
                    }
                    if done {
                        let ghost q = chunk@.skip(i + 1);
                        proof {
                            assert(p0 + chunk@ == self.consumed@ + q);
                            lemma_progress_stopped(a, ig, self.consumed@, q);
                        }
                        self.consumed = Ghost(p0 + chunk@);
                        return Ok(true);
                    }
                },
                Err(e) => {
                    let ghost q = chunk@.skip(i + 1);
                    proof {
                        assert(p0 + chunk@ == self.consumed@ + q);
                        if progress(a, ig, self.consumed@).phase == Phase::Failed {
                            lemma_progress_stopped(a, ig, self.consumed@, q);
                        } else {
                            lemma_invalid_extends(a, self.consumed@, q);
                        }
                    }
                    self.consumed = Ghost(p0 + chunk@);
                    return Err(e);
                },
            }
            i += 1;
        }
        assert(chunk@.take(i as int) == chunk@);
        Ok(false)
    }

    /// Ends the input: succeeds exactly when the input read as a whole
    /// decodes, which takes, without `ignore_garbage`, that no invalid byte
    /// was left in an unfinished group.
    pub fn finish(&self) -> (r: Result<(), CodecError>)
        requires
            self.wf(),
        ensures
            (r is Ok) <==> (decode_spec(self.alphabet_spec(), self.consumed(), self.ignore_garbage_spec()) is Ok),
            r matches Err(e) ==> e == CodecError::InvalidInput,
    {
        let ghost s = progress(self.alphabet, self.ignore_garbage, self.consumed@);
        match self.phase {
            Phase::Failed => {
                assert(s.phase == Phase::Failed || (!self.ignore_garbage && has_invalid(self.alphabet, self.consumed@)));
                Err(CodecError::InvalidInput)
            },
            Phase::Done => Ok(()),
            Phase::Running => {
                if !self.ignore_garbage {
                    let mut i: usize = 0;
                    while i < self.word.len()
                        invariant
                            self.wf(),
                            !self.ignore_garbage,
                            self.phase == Phase::Running,
                            i <= self.word@.len(),
                            forall|j: int| 0 <= j < i ==> #[trigger] self.word@[j] != INVALID_CODE,
                        decreases self.word@.len() - i,
                    {
                        if self.word[i] == INVALID_CODE {
                            assert(self.word@.contains(INVALID_CODE)) by {
                                assert(self.word@[i as int] == INVALID_CODE);
                            }
                            assert(has_invalid(self.alphabet, self.consumed@));
                            return Err(CodecError::InvalidInput);
                        }
                        i += 1;
                    }
                }
                Ok(())
            },
        }
    }
}

/// Whether every code of `w` stands for data.
fn all_data_codes(w: &[u8]) -> (r: bool)
    ensures
        r == all_data(w@),
{
    let mut i: usize = 0;
    while i < w.len()
        invariant
            i <= w@.len(),
            forall|j: int| 0 <= j < i ==> #[trigger] w@[j] < PAD_CODE,
        decreases w@.len() - i,
    {
        if w[i] >= PAD_CODE {
            return false;
        }
        i += 1;
    }
    true
}

/// The kept codes of a word, or `None` when invalid bytes are not ignored and
/// the word holds one.
fn clean_word(w: &[u8], ig: bool) -> (r: Option<Vec<u8>>)
    ensures
        r is None <==> !ig && w@.contains(INVALID_CODE),
        r matches Some(v) ==> v@ == kept_codes(w@),
{
    let mut v: Vec<u8> = Vec::new();
    let mut i: usize = 0;
    while i < w.len()
        invariant
            i <= w@.len(),
            v@ == kept_codes(w@.take(i as int)),
            !ig ==> !w@.take(i as int).contains(INVALID_CODE),
        decreases w@.len() - i,
    {
        let x = w[i];
        let ghost w_i = w@.take(i as int);
        assert(w@.take(i + 1) == w_i.push(x));
        assert(w@.take(i + 1).drop_last() == w_i);
        if x == INVALID_CODE && !ig {
            assert(w@[i as int] == x);
            return None;
        }
        if x <= PAD_CODE {
            v.push(x);
        }
        i += 1;
        proof {
            if !ig {
                assert(!w@.take(i as int).contains(INVALID_CODE)) by {
                    if w@.take(i as int).contains(INVALID_CODE) {
                        let j = choose|j: int| 0 <= j < i && w@.take(i as int)[j] == INVALID_CODE;
                        if j < i - 1 {
                            assert(w_i[j] == INVALID_CODE);
                        }
                    }
                }
            }
        }
    }
    assert(w@.take(w@.len() as int) == w@);
    Some(v)
}

/// Kept codes are no more than the codes.
pub proof fn lemma_kept_codes_len(w: Seq<u8>)
    ensures
        kept_codes(w).len() <= w.len(),
    decreases w.len(),
{
    if w.len() > 0 {
        lemma_kept_codes_len(w.drop_last());
    }
}

/// Codes that are all data or padding are all kept.
pub proof fn lemma_kept_codes_all(w: Seq<u8>)
    requires
        forall|i: int| 0 <= i < w.len() ==> #[trigger] w[i] <= PAD_CODE,
    ensures
        kept_codes(w) == w,
    decreases w.len(),
{
    if w.len() > 0 {
        lemma_kept_codes_all(w.drop_last());
        assert(w.drop_last().push(w.last()) == w);
    }
}

/// Kept codes are data or padding.
pub proof fn lemma_kept_codes_shape(w: Seq<u8>)
    ensures
        forall|i: int| 0 <= i < kept_codes(w).len() ==> #[trigger] kept_codes(w)[i] <= PAD_CODE,
    decreases w.len(),
{
    if w.len() > 0 {
        lemma_kept_codes_shape(w.drop_last());
        let r = kept_codes(w.drop_last());
        if w.last() <= PAD_CODE {
            assert forall|i: int| 0 <= i < kept_codes(w).len() implies #[trigger] kept_codes(w)[i] <= PAD_CODE by {
                if i < r.len() {
                    assert(kept_codes(w)[i] == r[i]);
                }
            }
        }
    }
}

/// When nothing is dropped, the kept codes are the codes.
pub proof fn lemma_kept_codes_full(w: Seq<u8>)
    requires
        kept_codes(w).len() == w.len(),
    ensures
        kept_codes(w) == w,
    decreases w.len(),
{
    if w.len() > 0 {
        lemma_kept_codes_len(w.drop_last());
        if w.last() <= PAD_CODE {
            lemma_kept_codes_full(w.drop_last());
            assert(w.drop_last().push(w.last()) == w);
        }
    }
}

/// Decodes `input` whole, see `decode_spec`.
pub fn decode(alphabet: Alphabet, input: &[u8], ignore_garbage: bool) -> (r: Result<Vec<u8>, CodecError>)
    ensures
        match r {
            Ok(v) => decode_spec(alphabet, input@, ignore_garbage) == Ok::<Seq<u8>, CodecError>(v@),
            Err(e) => decode_spec(alphabet, input@, ignore_garbage) == Err::<Seq<u8>, CodecError>(e),
        },
{
    let mut d = Decoder::new(alphabet, ignore_garbage);
    let mut out: Vec<u8> = Vec::new();
    let ghost e = Seq::<u8>::empty();
    assert(e + input@ == input@);
    proof {
        assert(codes(alphabet, e) =~= e);
        assert(progress(alphabet, ignore_garbage, e) == initial());
    }
    if let Err(err) = d.feed(input, &mut out) {
        return Err(err);
    }
    assert(out@.skip(0) == out@);
    match d.finish() {
        Ok(()) => Ok(out),
        Err(err) => Err(err),
    }
}

} // verus!
