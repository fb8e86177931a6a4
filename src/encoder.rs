use vstd::prelude::*;
use crate::alphabet::{Alphabet, in_len, out_len, symbol_of, PAD, NEWLINE};
use crate::common::{wrapped, write_spec, next_col, wrapping_write, lemma_wrapped_concat};
use crate::error::CodecError;

verus! {

/// The symbols of one full group, most significant bits first.
pub open spec fn group_symbols(a: Alphabet, g: Seq<u8>) -> Seq<u8> {
    match a {
        Alphabet::Base64 => seq![
            symbol_of(a, g[0] >> 2u8),
            symbol_of(a, ((g[0] & 3u8) << 4u8) | (g[1] >> 4u8)),
            symbol_of(a, ((g[1] & 15u8) << 2u8) | (g[2] >> 6u8)),
            symbol_of(a, g[2] & 63u8),
        ],
        Alphabet::Base32 => seq![
            symbol_of(a, g[0] >> 3u8),
            symbol_of(a, ((g[0] & 7u8) << 2u8) | (g[1] >> 6u8)),
            symbol_of(a, (g[1] & 63u8) >> 1u8),
            symbol_of(a, ((g[1] & 1u8) << 4u8) | (g[2] >> 4u8)),
            symbol_of(a, ((g[2] & 15u8) << 1u8) | (g[3] >> 7u8)),
            symbol_of(a, (g[3] & 127u8) >> 2u8),
            symbol_of(a, ((g[3] & 3u8) << 3u8) | (g[4] >> 5u8)),
            symbol_of(a, g[4] & 31u8),
        ],
    }
}

/// How many symbols carry data for a last group of `r` bytes.
pub open spec fn tail_data_len(a: Alphabet, r: nat) -> nat {
    match a {
        Alphabet::Base64 => if r == 0 { 0 } else { r + 1 },
        Alphabet::Base32 => if r == 0 {
            0
        } else if r == 1 {
            2
        } else if r == 2 {
            4
        } else if r == 3 {
            5
        } else {
            7
        },
    }
}

/// `t` followed by zero bytes up to length `n`.
pub open spec fn zero_filled(t: Seq<u8>, n: nat) -> Seq<u8> {
    t + Seq::new((n - t.len()) as nat, |i: int| 0u8)
}

/// `n` padding characters.
pub open spec fn padding(n: nat) -> Seq<u8> {
    Seq::new(n, |i: int| PAD)
}

/// The symbols of a last, partial group: its bytes with the missing low-order
/// bits zero, cut to the symbols that carry data, then padded with `=`.
pub open spec fn tail_symbols(a: Alphabet, t: Seq<u8>) -> Seq<u8> {
    if t.len() == 0 {
        Seq::empty()
    } else {
        let k = tail_data_len(a, t.len());
        group_symbols(a, zero_filled(t, in_len(a))).take(k as int) + padding((out_len(a) - k) as nat)
    }
}

/// The encoded symbols of `d`, without line breaks.
pub open spec fn symbols(a: Alphabet, d: Seq<u8>) -> Seq<u8>
    decreases d.len(),
{
    if d.len() < in_len(a) {
        tail_symbols(a, d)
    } else {
        group_symbols(a, d.take(in_len(a) as int)) + symbols(a, d.skip(in_len(a) as int))
    }
}

/// The complete output of encoding `d`: the symbols, wrapped and followed by a
/// line break when a wrap width is given.
pub open spec fn encode_spec(a: Alphabet, d: Seq<u8>, wrap: Option<usize>) -> Seq<u8> {
    match wrap {
        None => symbols(a, d),
        Some(w) => wrapped(symbols(a, d), w as nat, 0) + seq![NEWLINE],
    }
}

/// Length of the part of `p` made of whole groups.
pub open spec fn full_len(a: Alphabet, p: Seq<u8>) -> nat {
    (p.len() - p.len() % in_len(a)) as nat
}

/// What a streaming encoder has written once it has been given `p`: the whole
/// groups of `p`, encoded and wrapped.
pub open spec fn emitted(a: Alphabet, p: Seq<u8>, wrap: Option<usize>) -> Seq<u8> {
    write_spec(symbols(a, p.take(full_len(a, p) as int)), wrap, 0)
}

/// Symbols of whole groups followed by anything are the two encodings joined.
pub proof fn lemma_symbols_concat(a: Alphabet, d1: Seq<u8>, d2: Seq<u8>)
    requires
        d1.len() % in_len(a) == 0,
    ensures
        symbols(a, d1 + d2) == symbols(a, d1) + symbols(a, d2),
    decreases d1.len(),
{
    if d1.len() == 0 {
        assert(d1 + d2 == d2);
        assert(symbols(a, d1) == Seq::<u8>::empty());
    } else {
        let n = in_len(a) as int;
        assert((d1 + d2).take(n) == d1.take(n));
        assert((d1 + d2).skip(n) == d1.skip(n) + d2);
        lemma_symbols_concat(a, d1.skip(n), d2);
    }
}

/// One whole group encodes to its group symbols.
pub proof fn lemma_symbols_group(a: Alphabet, g: Seq<u8>)
    requires
        g.len() == in_len(a),
    ensures
        symbols(a, g) == group_symbols(a, g),
{
    assert(g.take(in_len(a) as int) == g);
    assert(symbols(a, g.skip(in_len(a) as int)) == Seq::<u8>::empty());
}

/// Every group symbol stands for a value of the alphabet.
pub proof fn lemma_group_values(g: Seq<u8>)
    requires
        g.len() >= 5,
    ensures
        g[0] >> 2u8 < 64,
        ((g[0] & 3u8) << 4u8) | (g[1] >> 4u8) < 64,
        ((g[1] & 15u8) << 2u8) | (g[2] >> 6u8) < 64,
        g[2] & 63u8 < 64,
        g[0] >> 3u8 < 32,
        ((g[0] & 7u8) << 2u8) | (g[1] >> 6u8) < 32,
        (g[1] & 63u8) >> 1u8 < 32,
        ((g[1] & 1u8) << 4u8) | (g[2] >> 4u8) < 32,
        ((g[2] & 15u8) << 1u8) | (g[3] >> 7u8) < 32,
        (g[3] & 127u8) >> 2u8 < 32,
        ((g[3] & 3u8) << 3u8) | (g[4] >> 5u8) < 32,
        g[4] & 31u8 < 32,
{
    let (x, y, z, u, v) = (g[0], g[1], g[2], g[3], g[4]);
    assert(x >> 2u8 < 64 && ((x & 3u8) << 4u8) | (y >> 4u8) < 64 && ((y & 15u8) << 2u8) | (z
        >> 6u8) < 64 && z & 63u8 < 64) by (bit_vector);
    assert(x >> 3u8 < 32 && ((x & 7u8) << 2u8) | (y >> 6u8) < 32 && (y & 63u8) >> 1u8 < 32 && ((
    y & 1u8) << 4u8) | (z >> 4u8) < 32) by (bit_vector);
    assert(((z & 15u8) << 1u8) | (u >> 7u8) < 32 && (u & 127u8) >> 2u8 < 32 && ((u & 3u8) << 3u8)
        | (v >> 5u8) < 32 && v & 31u8 < 32) by (bit_vector);
}

/// Appends the symbols of the whole group `g` to `syms`.
fn push_group(a: Alphabet, g: &[u8], syms: &mut Vec<u8>)
    requires
        g@.len() == in_len(a),
    ensures
        final(syms)@ == old(syms)@ + group_symbols(a, g@),
{
    match a {
        Alphabet::Base64 => {
            let (x, y, z) = (g[0], g[1], g[2]);
            proof {
                lemma_group_values(g@ + seq![0u8, 0u8]);
            }
            syms.push(a.symbol(x >> 2));
            syms.push(a.symbol(((x & 3) << 4) | (y >> 4)));
            syms.push(a.symbol(((y & 15) << 2) | (z >> 6)));
            syms.push(a.symbol(z & 63));
        },
        Alphabet::Base32 => {
            let (x, y, z, u, v) = (g[0], g[1], g[2], g[3], g[4]);
            proof {
                lemma_group_values(g@);
            }
            syms.push(a.symbol(x >> 3));
            syms.push(a.symbol(((x & 7) << 2) | (y >> 6)));
            syms.push(a.symbol((y & 63) >> 1));
            syms.push(a.symbol(((y & 1) << 4) | (z >> 4)));
            syms.push(a.symbol(((z & 15) << 1) | (u >> 7)));
            syms.push(a.symbol((u & 127) >> 2));
            syms.push(a.symbol(((u & 3) << 3) | (v >> 5)));
            syms.push(a.symbol(v & 31));
        },
    }
    assert(final(syms)@ =~= old(syms)@ + group_symbols(a, g@));
}


/// How the whole-group part of a stream grows by one byte.
pub proof fn lemma_full_len_push(a: Alphabet, p: Seq<u8>, b: u8)
    ensures
        full_len(a, p) <= p.len(),
        p.len() - full_len(a, p) < in_len(a),
        full_len(a, p) % in_len(a) == 0,
        full_len(a, p.push(b)) == if p.len() - full_len(a, p) + 1 == in_len(a) {
            full_len(a, p) + in_len(a)
        } else {
            full_len(a, p)
        },
{
    match a {
        Alphabet::Base64 => {},
        Alphabet::Base32 => {},
    }
}

/// Data symbols of a last group of `r` bytes.
fn tail_data_count(a: Alphabet, r: usize) -> (k: usize)
    requires
        r < in_len(a),
    ensures
        k == tail_data_len(a, r as nat),
        r > 0 ==> 0 < k < out_len(a),
{
    match a {
        Alphabet::Base64 => if r == 0 { 0 } else { r + 1 },
        Alphabet::Base32 => if r == 0 {
            0
        } else if r == 1 {
            2
        } else if r == 2 {
            4
        } else if r == 3 {
            5
        } else {
            7
        },
    }
}

/// Appends the symbols of the partial last group `t` to `syms`.
fn push_tail(a: Alphabet, t: &[u8], syms: &mut Vec<u8>)
    requires
        t@.len() < in_len(a),
    ensures
        final(syms)@ == old(syms)@ + tail_symbols(a, t@),
{
    if t.len() == 0 {
        assert(old(syms)@ + tail_symbols(a, t@) == old(syms)@);
        return;
    }
    let n = a.group_len();
    let mut g: Vec<u8> = Vec::new();
    let mut i: usize = 0;
    while i < n
        invariant
            n == in_len(a),
            t@.len() < n,
            i <= n,
            g@ == zero_filled(t@, n as nat).take(i as int),
        decreases n - i,
    {
        let b: u8 = if i < t.len() { t[i] } else { 0 };
        g.push(b);
        i += 1;
        assert(g@ == zero_filled(t@, n as nat).take(i as int));
    }
    assert(g@ == zero_filled(t@, n as nat));
    let mut full: Vec<u8> = Vec::new();
    push_group(a, g.as_slice(), &mut full);
    let k = tail_data_count(a, t.len());
    let m = a.word_len();
    let ghost start = syms@;
    let ghost expected = tail_symbols(a, t@);
    let mut j: usize = 0;
    while j < m
        invariant
            m == out_len(a),
            0 < k < m,
            full@ == group_symbols(a, zero_filled(t@, in_len(a))),
            full@.len() == m,
            expected == full@.take(k as int) + padding((m - k) as nat),
            j <= m,
            syms@ == start + expected.take(j as int),
        decreases m - j,
    {
        let s: u8 = if j < k { full[j] } else { PAD };
        syms.push(s);
        j += 1;
        assert(expected.take(j as int) == expected.take(j - 1) + seq![expected[j - 1]]);
    }
    assert(expected.take(m as int) == expected);
}

/// A streaming encoder: bytes go in by `update`, the last group and the
/// final line break by `finish`.
pub struct Encoder {
    alphabet: Alphabet,
    wrap: Option<usize>,
    col: usize,
    pending: Vec<u8>,
    consumed: Ghost<Seq<u8>>,
}

impl Encoder {
    /// The alphabet this encoder writes.
    pub closed spec fn alphabet_spec(&self) -> Alphabet {
        self.alphabet
    }

    /// The line width, if lines are wrapped.
    pub closed spec fn wrap_spec(&self) -> Option<usize> {
        self.wrap
    }

    /// All bytes given to the encoder so far.
    pub closed spec fn consumed(&self) -> Seq<u8> {
        self.consumed@
    }

    /// The state matches the bytes consumed: the bytes of an unfinished group
    /// are held back, and the column is the one reached by the symbols written.
    pub closed spec fn wf(&self) -> bool {
        let a = self.alphabet;
        let p = self.consumed@;
        &&& self.wrap matches Some(w) ==> w > 0 && self.col <= w
        &&& self.pending@ == p.skip(full_len(a, p) as int)
        &&& self.col == next_col(symbols(a, p.take(full_len(a, p) as int)).len(), self.wrap, 0)
    }

    /// A new encoder; a wrap width of zero is refused.
    pub fn new(alphabet: Alphabet, wrap: Option<usize>) -> (r: Result<Encoder, CodecError>)
        ensures
            wrap == Some(0usize) ==> r == Err::<Encoder, CodecError>(CodecError::InvalidConfiguration),
            wrap != Some(0usize) ==> (r matches Ok(e) && e.wf() && e.alphabet_spec() == alphabet
                && e.wrap_spec() == wrap && e.consumed() == Seq::<u8>::empty()),
    {
        if let Some(w) = wrap {
            if w == 0 {
                return Err(CodecError::InvalidConfiguration);
            }
        }
        let e = Encoder { alphabet, wrap, col: 0, pending: Vec::new(), consumed: Ghost(Seq::empty()) };
        proof {
            let p = Seq::<u8>::empty();
            assert(p.take(0) == p);
            assert(p.skip(0) == p);
            assert(symbols(alphabet, p) == Seq::<u8>::empty());
        }
        Ok(e)
    }

    /// Encodes the whole groups that `chunk` completes and writes them,
    /// wrapped, to `out`.
    pub fn update(&mut self, chunk: &[u8], out: &mut Vec<u8>)
        requires
            old(self).wf(),
        ensures
            final(self).wf(),
            final(self).alphabet_spec() == old(self).alphabet_spec(),
            final(self).wrap_spec() == old(self).wrap_spec(),
            final(self).consumed() == old(self).consumed() + chunk@,
            final(out)@ == old(out)@ + emitted(final(self).alphabet_spec(), final(self).consumed(), final(self).wrap_spec()).skip(
                emitted(old(self).alphabet_spec(), old(self).consumed(), old(self).wrap_spec()).len() as int),
            emitted(final(self).alphabet_spec(), final(self).consumed(), final(self).wrap_spec()) == emitted(
                old(self).alphabet_spec(), old(self).consumed(), old(self).wrap_spec()) + final(out)@.skip(old(out)@.len() as int),
    {
        let a = self.alphabet;
        let n = a.group_len();
        let ghost start = self.consumed@;
        let ghost s0 = symbols(a, start.take(full_len(a, start) as int));
        let mut syms: Vec<u8> = Vec::new();
        let mut i: usize = 0;
        while i < chunk.len()
            invariant
                a == self.alphabet,
                self.alphabet == old(self).alphabet,
                self.wrap == old(self).wrap,
                self.col == old(self).col,
                self.consumed == old(self).consumed,
                self.wrap matches Some(w) ==> w > 0 && self.col <= w,
                start == self.consumed@,
                s0 == symbols(a, start.take(full_len(a, start) as int)),
                self.col == next_col(s0.len(), self.wrap, 0),
                n == in_len(a),
                i <= chunk@.len(),
                self.pending@ == (start + chunk@.take(i as int)).skip(full_len(a, start + chunk@.take(i as int)) as int),
                symbols(a, (start + chunk@.take(i as int)).take(full_len(a, start + chunk@.take(i as int)) as int))
                    == s0 + syms@,
            decreases chunk@.len() - i,
        {
            let ghost cur = start + chunk@.take(i as int);
            let ghost f = full_len(a, cur);
            proof {
                lemma_full_len_push(a, cur, chunk@[i as int]);
                assert(start + chunk@.take(i + 1) == cur.push(chunk@[i as int]));
            }
            self.pending.push(chunk[i]);
            let ghost nxt = cur.push(chunk@[i as int]);
            assert(self.pending@ == nxt.skip(f as int));
            if self.pending.len() == n {
                proof {
                    assert(nxt.take(f + n) == cur.take(f as int) + self.pending@);
                    lemma_symbols_concat(a, cur.take(f as int), self.pending@);
                    lemma_symbols_group(a, self.pending@);
                }
                push_group(a, self.pending.as_slice(), &mut syms);
                self.pending.clear();
                assert(nxt.skip(f + n) == Seq::<u8>::empty());
            } else {
                assert(nxt.take(f as int) == cur.take(f as int));
            }
            i += 1;
        }
        assert(start + chunk@.take(i as int) == start + chunk@);
        self.consumed = Ghost(start + chunk@);
        let ghost before = out@;
        let ghost c0 = self.col as nat;
        proof {
            match self.wrap {
                None => {},
                Some(w) => lemma_wrapped_concat(s0, syms@, w as nat, 0),
            }
            assert(syms@.take(syms@.len() as int) == syms@);
        }
        self.col = wrapping_write(syms.as_slice(), syms.len(), self.wrap, self.col, out);
        proof {
            let e0 = emitted(a, start, self.wrap);
            let e1 = emitted(a, self.consumed@, self.wrap);
            assert(e1 == e0 + write_spec(syms@, self.wrap, c0));
            assert(out@.skip(before.len() as int) == write_spec(syms@, self.wrap, c0));
            assert(e1.skip(e0.len() as int) == out@.skip(before.len() as int));
        }
    }

    /// Encodes the last, partial group with its padding and writes it; when
    /// lines are wrapped, ends the output with a line break.
    pub fn finish(&self, out: &mut Vec<u8>)
        requires
            self.wf(),
        ensures
            final(out)@ == old(out)@ + encode_spec(self.alphabet_spec(), self.consumed(), self.wrap_spec()).skip(
                emitted(self.alphabet_spec(), self.consumed(), self.wrap_spec()).len() as int),
            encode_spec(self.alphabet_spec(), self.consumed(), self.wrap_spec()) == emitted(
                self.alphabet_spec(), self.consumed(), self.wrap_spec()) + final(out)@.skip(old(out)@.len() as int),
    {
        let a = self.alphabet;
        let ghost p = self.consumed@;
        let ghost f = full_len(a, p);
        let ghost s0 = symbols(a, p.take(f as int));
        proof {
            lemma_full_len_push(a, p, 0);
            assert(p == p.take(f as int) + self.pending@);
            lemma_symbols_concat(a, p.take(f as int), self.pending@);
        }
        let mut syms: Vec<u8> = Vec::new();
        push_tail(a, self.pending.as_slice(), &mut syms);
        assert(syms@ == symbols(a, self.pending@));
        let ghost before = out@;
        proof {
            match self.wrap {
                None => {},
                Some(w) => lemma_wrapped_concat(s0, syms@, w as nat, 0),
            }
            assert(syms@.take(syms@.len() as int) == syms@);
        }
        let _ = wrapping_write(syms.as_slice(), syms.len(), self.wrap, self.col, out);
        if self.wrap.is_some() {
            out.push(NEWLINE);
        }
        proof {
            let e0 = emitted(a, p, self.wrap);
            let e1 = encode_spec(a, p, self.wrap);
            let d = write_spec(syms@, self.wrap, self.col as nat);
            match self.wrap {
                None => {
                    assert(e1 == e0 + d);
                    assert(out@.skip(before.len() as int) == d);
                },
                Some(w) => {
                    assert(e1 == e0 + (d + seq![NEWLINE]));
                    assert(out@.skip(before.len() as int) == d + seq![NEWLINE]);
                },
            }
        }
    }
}

/// Encodes `input` whole: the symbols, wrapped after `wrap` columns and
/// followed by a line break when `wrap` is given. A wrap width of zero is
/// refused.
pub fn encode(alphabet: Alphabet, input: &[u8], wrap: Option<usize>) -> (r: Result<Vec<u8>, CodecError>)
    ensures
        wrap == Some(0usize) ==> r == Err::<Vec<u8>, CodecError>(CodecError::InvalidConfiguration),
        wrap != Some(0usize) ==> (r matches Ok(v) && v@ == encode_spec(alphabet, input@, wrap)),
{
    let mut e = match Encoder::new(alphabet, wrap) {
        Ok(e) => e,
        Err(err) => return Err(err),
    };
    let mut out: Vec<u8> = Vec::new();
    e.update(input, &mut out);
    assert(Seq::<u8>::empty() + input@ == input@);
    e.finish(&mut out);
    proof {
        let p = input@;
        let e0 = emitted(alphabet, Seq::<u8>::empty(), wrap);
        assert(Seq::<u8>::empty().take(0) == Seq::<u8>::empty());
        assert(symbols(alphabet, Seq::<u8>::empty()) == Seq::<u8>::empty());
        assert(e0.len() == 0);
    }
    Ok(out)
}

} // verus!
