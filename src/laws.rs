use vstd::prelude::*;
use crate::alphabet::{Alphabet, in_len, out_len, radix, code_of, lemma_symbol_code, PAD, NEWLINE, PAD_CODE, INVALID_CODE, SPACE_CODE};
use crate::common::{wrapped, lemma_wrapped_breaks};
use crate::decoder::{Phase, Progress, kept, kept_codes, codes, has_invalid, all_data, group_bytes, final_bytes, padded_at, run, progress, decode_spec, lemma_kept_codes_all};
use crate::error::CodecError;
use crate::encoder::{symbols, group_symbols, tail_symbols, tail_data_len, padding, zero_filled, encode_spec, lemma_group_values};

verus! {

/// How many `=` end the encoding of data whose length leaves `r` bytes over a
/// whole number of groups.
pub open spec fn pad_len(a: Alphabet, r: nat) -> nat {
    match a {
        Alphabet::Base64 => if r == 1 {
            2
        } else if r == 2 {
            1
        } else {
            0
        },
        Alphabet::Base32 => if r == 1 {
            6
        } else if r == 2 {
            4
        } else if r == 3 {
            3
        } else if r == 4 {
            1
        } else {
            0
        },
    }
}

/// A byte that an encoder writes as a symbol: a data symbol or `=`.
pub open spec fn is_encoded_symbol(a: Alphabet, b: u8) -> bool {
    code_of(a, b) < radix(a) || b == PAD
}

/// The symbols of a whole group are data symbols.
proof fn lemma_group_symbols_shape(a: Alphabet, g: Seq<u8>)
    requires
        g.len() == in_len(a),
    ensures
        group_symbols(a, g).len() == out_len(a),
        forall|i: int|
            0 <= i < out_len(a) ==> code_of(a, #[trigger] group_symbols(a, g)[i]) < radix(a)
                && group_symbols(a, g)[i] != PAD,
{
    let gs = group_symbols(a, g);
    match a {
        Alphabet::Base64 => {
            lemma_group_values(g + seq![0u8, 0u8]);
            let e = g + seq![0u8, 0u8];
            assert(e[0] == g[0] && e[1] == g[1] && e[2] == g[2]);
            lemma_symbol_code(a, g[0] >> 2u8);
            lemma_symbol_code(a, ((g[0] & 3u8) << 4u8) | (g[1] >> 4u8));
            lemma_symbol_code(a, ((g[1] & 15u8) << 2u8) | (g[2] >> 6u8));
            lemma_symbol_code(a, g[2] & 63u8);
        },
        Alphabet::Base32 => {
            lemma_group_values(g);
            lemma_symbol_code(a, g[0] >> 3u8);
            lemma_symbol_code(a, ((g[0] & 7u8) << 2u8) | (g[1] >> 6u8));
            lemma_symbol_code(a, (g[1] & 63u8) >> 1u8);
            lemma_symbol_code(a, ((g[1] & 1u8) << 4u8) | (g[2] >> 4u8));
            lemma_symbol_code(a, ((g[2] & 15u8) << 1u8) | (g[3] >> 7u8));
            lemma_symbol_code(a, (g[3] & 127u8) >> 2u8);
            lemma_symbol_code(a, ((g[3] & 3u8) << 3u8) | (g[4] >> 5u8));
            lemma_symbol_code(a, g[4] & 31u8);
        },
    }
}

/// The symbols of a partial group: data symbols, then `=` to a whole group.
proof fn lemma_tail_symbols_shape(a: Alphabet, t: Seq<u8>)
    requires
        0 < t.len() < in_len(a),
    ensures
        tail_symbols(a, t).len() == out_len(a),
        pad_len(a, t.len()) == out_len(a) - tail_data_len(a, t.len()),
        0 < tail_data_len(a, t.len()) < out_len(a),
        forall|i: int|
            0 <= i < out_len(a) ==> (#[trigger] tail_symbols(a, t)[i] == PAD <==> i >= tail_data_len(a, t.len())),
        forall|i: int| 0 <= i < out_len(a) ==> is_encoded_symbol(a, #[trigger] tail_symbols(a, t)[i]),
{
    let z = zero_filled(t, in_len(a));
    lemma_group_symbols_shape(a, z);
    let k = tail_data_len(a, t.len());
    let ts = tail_symbols(a, t);
    assert(ts == group_symbols(a, z).take(k as int) + padding((out_len(a) - k) as nat));
    assert forall|i: int| 0 <= i < out_len(a) implies (#[trigger] ts[i] == PAD <==> i >= k) && is_encoded_symbol(a, ts[i]) by {
        if i < k {
            assert(ts[i] == group_symbols(a, z)[i]);
        } else {
            assert(ts[i] == PAD);
        }
    }
}

/// The shape of an encoding: its length, that it holds only data symbols and
/// `=`, and that the `=` are the last `pad_len` symbols.
pub proof fn lemma_symbols_shape(a: Alphabet, d: Seq<u8>)
    ensures
        symbols(a, d).len() == out_len(a) * (d.len() / in_len(a)) + if d.len() % in_len(a) == 0 {
            0
        } else {
            out_len(a)
        },
        forall|i: int| 0 <= i < symbols(a, d).len() ==> is_encoded_symbol(a, #[trigger] symbols(a, d)[i]),
        forall|i: int|
            0 <= i < symbols(a, d).len() ==> (#[trigger] symbols(a, d)[i] == PAD <==> i >= symbols(a, d).len()
                - pad_len(a, d.len() % in_len(a))),
    decreases d.len(),
{
    let s = symbols(a, d);
    let n = in_len(a) as int;
    if d.len() < n {
        if d.len() > 0 {
            lemma_tail_symbols_shape(a, d);
        }
        match a {
            Alphabet::Base64 => {},
            Alphabet::Base32 => {},
        }
    } else {
        let g = d.take(n);
        let rest = d.skip(n);
        lemma_group_symbols_shape(a, g);
        lemma_symbols_shape(a, rest);
        let gs = group_symbols(a, g);
        let rs = symbols(a, rest);
        assert(s == gs + rs);
        assert(rest.len() == d.len() - n);
        match a {
            Alphabet::Base64 => {
                assert(rest.len() / 3 == d.len() / 3 - 1);
                assert(rest.len() % 3 == d.len() % 3);
            },
            Alphabet::Base32 => {
                assert(rest.len() / 5 == d.len() / 5 - 1);
                assert(rest.len() % 5 == d.len() % 5);
            },
        }
        assert forall|i: int| 0 <= i < s.len() implies is_encoded_symbol(a, #[trigger] s[i]) && (s[i] == PAD <==> i
            >= s.len() - pad_len(a, d.len() % in_len(a))) by {
            if i < out_len(a) {
                assert(s[i] == gs[i]);
            } else {
                assert(s[i] == rs[i - out_len(a)]);
            }
        }
    }
}


/// Encoded symbols are never line breaks.
proof fn lemma_symbols_not_newline(a: Alphabet, d: Seq<u8>)
    ensures
        forall|i: int| 0 <= i < symbols(a, d).len() ==> #[trigger] symbols(a, d)[i] != NEWLINE,
{
    lemma_symbols_shape(a, d);
    assert forall|i: int| 0 <= i < symbols(a, d).len() implies #[trigger] symbols(a, d)[i] != NEWLINE by {
        assert(is_encoded_symbol(a, symbols(a, d)[i]));
    }
}

/// Without wrapping, the output is a single unbroken line: no line break at
/// all, not even at the end.
pub proof fn lemma_unwrapped_single_line(a: Alphabet, d: Seq<u8>)
    ensures
        forall|i: int|
            0 <= i < encode_spec(a, d, None).len() ==> #[trigger] encode_spec(a, d, None)[i] != NEWLINE,
{
    lemma_symbols_not_newline(a, d);
}

/// With a wrap width `w`, every line but the last holds exactly `w` symbols,
/// the last holds at most `w`, and the output ends with exactly one line
/// break: line breaks stand exactly at the positions `i` where
/// `(i + 1) % (w + 1) == 0`, and at the very end, with no line break before
/// that final one.
pub proof fn lemma_wrapped_lines(a: Alphabet, d: Seq<u8>, w: usize)
    requires
        w > 0,
    ensures
        ({
            let out = encode_spec(a, d, Some(w));
            &&& out.len() > 0
            &&& out.last() == NEWLINE
            &&& forall|i: int|
                0 <= i < out.len() - 1 ==> (#[trigger] out[i] == NEWLINE <==> (i + 1) % (w + 1) as int == 0)
            &&& out.len() >= 2 ==> out[out.len() - 2] != NEWLINE
        }),
{
    let s = symbols(a, d);
    lemma_symbols_not_newline(a, d);
    lemma_wrapped_breaks(s, w as nat, 0);
    let body = wrapped(s, w as nat, 0);
    let out = encode_spec(a, d, Some(w));
    assert(out == body + seq![NEWLINE]);
    assert forall|i: int| 0 <= i < out.len() - 1 implies (#[trigger] out[i] == NEWLINE <==> (i + 1) % (w + 1) as int
        == 0) by {
        assert(out[i] == body[i]);
    }
    if out.len() >= 2 {
        assert(body.len() > 0);
        if s.len() == 0 {
            assert(body.len() == 0);
        }
        assert(out[out.len() - 2] == body.last());
        assert(s[s.len() - 1] != NEWLINE);
    }
}


/// Kept codes of a concatenation.
proof fn lemma_kept_codes_concat(u: Seq<u8>, v: Seq<u8>)
    ensures
        kept_codes(u + v) == kept_codes(u) + kept_codes(v),
    decreases v.len(),
{
    if v.len() == 0 {
        assert(u + v == u);
    } else {
        lemma_kept_codes_concat(u, v.drop_last());
        assert((u + v).drop_last() == u + v.drop_last());
        assert((u + v).last() == v.last());
    }
}

/// Kept symbols and invalid bytes of a concatenation.
proof fn lemma_kept_concat(a: Alphabet, x: Seq<u8>, y: Seq<u8>)
    ensures
        kept(a, x + y) == kept(a, x) + kept(a, y),
        has_invalid(a, x + y) == (has_invalid(a, x) || has_invalid(a, y)),
{
    assert(codes(a, x + y) =~= codes(a, x) + codes(a, y));
    lemma_kept_codes_concat(codes(a, x), codes(a, y));
    if has_invalid(a, x) {
        let i = choose|i: int| 0 <= i < x.len() && code_of(a, #[trigger] x[i]) == INVALID_CODE;
        assert((x + y)[i] == x[i]);
    }
    if has_invalid(a, y) {
        let i = choose|i: int| 0 <= i < y.len() && code_of(a, #[trigger] y[i]) == INVALID_CODE;
        assert((x + y)[x.len() + i] == y[i]);
    }
    if has_invalid(a, x + y) {
        let i = choose|i: int| 0 <= i < x.len() + y.len() && code_of(a, #[trigger] (x + y)[i]) == INVALID_CODE;
        if i < x.len() {
            assert((x + y)[i] == x[i]);
        } else {
            assert((x + y)[i] == y[i - x.len()]);
        }
    }
}

/// A line break is neither kept nor invalid.
proof fn lemma_kept_newline(a: Alphabet)
    ensures
        kept(a, seq![NEWLINE]) == Seq::<u8>::empty(),
        !has_invalid(a, seq![NEWLINE]),
{
    let nl = seq![NEWLINE];
    assert(codes(a, nl) =~= seq![SPACE_CODE]);
    assert(codes(a, nl).drop_last() =~= Seq::<u8>::empty());
    assert(codes(a, nl).last() == SPACE_CODE);
    assert(kept_codes(Seq::<u8>::empty()) == Seq::<u8>::empty());
    assert(kept_codes(codes(a, nl)) == kept_codes(codes(a, nl).drop_last()));
    assert(nl[0] == NEWLINE);
}

/// Line breaks change neither the kept symbols nor the invalid bytes.
proof fn lemma_kept_wrapped(a: Alphabet, s: Seq<u8>, w: nat, col: nat)
    ensures
        kept(a, wrapped(s, w, col)) == kept(a, s),
        has_invalid(a, wrapped(s, w, col)) == has_invalid(a, s),
    decreases s.len(),
{
    if s.len() == 0 {
        assert(codes(a, s) =~= Seq::<u8>::empty());
        assert(codes(a, wrapped(s, w, col)) =~= Seq::<u8>::empty());
    } else {
        let c2: nat = if col >= w { 1 } else { col + 1 };
        let rest = s.drop_first();
        let r = wrapped(rest, w, c2);
        lemma_kept_wrapped(a, rest, w, c2);
        let head = seq![s[0]];
        assert(s == head + rest);
        lemma_kept_concat(a, head, rest);
        lemma_kept_concat(a, head, r);
        if col >= w {
            lemma_kept_newline(a);
            assert(seq![NEWLINE, s[0]] + r == seq![NEWLINE] + (head + r));
            lemma_kept_concat(a, seq![NEWLINE], head + r);
        } else {
            assert(wrapped(s, w, col) == head + r);
        }
    }
}

/// The kept codes of an encoding are the codes of its symbols, and it holds
/// no invalid byte.
proof fn lemma_encoding_codes(a: Alphabet, d: Seq<u8>, wrap: Option<usize>)
    ensures
        kept(a, encode_spec(a, d, wrap)) == codes(a, symbols(a, d)),
        !has_invalid(a, encode_spec(a, d, wrap)),
{
    let s = symbols(a, d);
    lemma_symbols_shape(a, d);
    assert forall|i: int| 0 <= i < codes(a, s).len() implies #[trigger] codes(a, s)[i] <= PAD_CODE by {
        assert(is_encoded_symbol(a, s[i]));
    }
    lemma_kept_codes_all(codes(a, s));
    assert(!has_invalid(a, s)) by {
        if has_invalid(a, s) {
            let i = choose|i: int| 0 <= i < s.len() && code_of(a, #[trigger] s[i]) == INVALID_CODE;
            assert(is_encoded_symbol(a, s[i]));
        }
    }
    match wrap {
        None => {},
        Some(w) => {
            lemma_kept_wrapped(a, s, w as nat, 0);
            lemma_kept_newline(a);
            lemma_kept_concat(a, wrapped(s, w as nat, 0), seq![NEWLINE]);
            assert(kept(a, s) + Seq::<u8>::empty() == kept(a, s));
        },
    }
}


/// The length of an encoding: one group of symbols per group of data, a
/// partial one included.
proof fn lemma_symbols_len(a: Alphabet, d: Seq<u8>)
    ensures
        symbols(a, d).len() == out_len(a) * (d.len() / in_len(a)) + if d.len() % in_len(a) == 0 {
            0
        } else {
            out_len(a)
        },
{
    lemma_symbols_shape(a, d);
}

/// Skipping `j` whole groups of the data skips `j` groups of symbols.
proof fn lemma_symbols_skip(a: Alphabet, d: Seq<u8>, j: nat)
    requires
        in_len(a) * j <= d.len(),
    ensures
        symbols(a, d).skip((out_len(a) * j) as int) == symbols(a, d.skip((in_len(a) * j) as int)),
    decreases j,
{
    let n = in_len(a) as int;
    let m = out_len(a) as int;
    if j == 0 {
        assert(d.skip(0) == d);
        assert(symbols(a, d).skip(0) == symbols(a, d));
    } else {
        let rest = d.skip(n);
        lemma_symbols_skip(a, rest, (j - 1) as nat);
        lemma_group_symbols_shape(a, d.take(n));
        lemma_symbols_shape(a, rest);
        assert(symbols(a, d) == group_symbols(a, d.take(n)) + symbols(a, rest));
        match a {
            Alphabet::Base64 => {
                assert(rest.skip(3 * (j - 1)) == d.skip(3 * (j as int)));
                assert(rest.len() / 3 >= j - 1);
                assert(symbols(a, d).skip(4 * (j as int)) =~= symbols(a, rest).skip(4 * (j - 1)));
            },
            Alphabet::Base32 => {
                assert(rest.skip(5 * (j - 1)) == d.skip(5 * (j as int)));
                assert(rest.len() / 5 >= j - 1);
                assert(symbols(a, d).skip(8 * (j as int)) =~= symbols(a, rest).skip(8 * (j - 1)));
            },
        }
    }
}

/// Decoding the symbols of a whole group gives the group back.
proof fn lemma_group_round_trip(a: Alphabet, g: Seq<u8>)
    requires
        g.len() == in_len(a),
    ensures
        all_data(codes(a, group_symbols(a, g))),
        group_bytes(a, codes(a, group_symbols(a, g))) == g,
{
    let gs = group_symbols(a, g);
    let c = codes(a, gs);
    lemma_group_symbols_shape(a, g);
    match a {
        Alphabet::Base64 => {
            lemma_group_values(g + seq![0u8, 0u8]);
            let e = g + seq![0u8, 0u8];
            assert(e[0] == g[0] && e[1] == g[1] && e[2] == g[2]);
            let (x, y, z) = (g[0], g[1], g[2]);
            lemma_symbol_code(a, x >> 2u8);
            lemma_symbol_code(a, ((x & 3u8) << 4u8) | (y >> 4u8));
            lemma_symbol_code(a, ((y & 15u8) << 2u8) | (z >> 6u8));
            lemma_symbol_code(a, z & 63u8);
            assert(c[0] == x >> 2u8 && c[1] == ((x & 3u8) << 4u8) | (y >> 4u8) && c[2] == ((y & 15u8)
                << 2u8) | (z >> 6u8) && c[3] == z & 63u8);
            assert(((x >> 2u8) << 2u8) | ((((x & 3u8) << 4u8) | (y >> 4u8)) >> 4u8) == x
                && ((((x & 3u8) << 4u8) | (y >> 4u8)) << 4u8) | ((((y & 15u8) << 2u8) | (z >> 6u8)) >> 2u8) == y
                && ((((y & 15u8) << 2u8) | (z >> 6u8)) << 6u8) | (z & 63u8) == z) by (bit_vector);
            assert(group_bytes(a, c) =~= g);
        },
        Alphabet::Base32 => {
            lemma_group_values(g);
            let (x, y, z, u, v) = (g[0], g[1], g[2], g[3], g[4]);
            lemma_symbol_code(a, x >> 3u8);
            lemma_symbol_code(a, ((x & 7u8) << 2u8) | (y >> 6u8));
            lemma_symbol_code(a, (y & 63u8) >> 1u8);
            lemma_symbol_code(a, ((y & 1u8) << 4u8) | (z >> 4u8));
            lemma_symbol_code(a, ((z & 15u8) << 1u8) | (u >> 7u8));
            lemma_symbol_code(a, (u & 127u8) >> 2u8);
            lemma_symbol_code(a, ((u & 3u8) << 3u8) | (v >> 5u8));
            lemma_symbol_code(a, v & 31u8);
            let c0 = x >> 3u8;
            let c1 = ((x & 7u8) << 2u8) | (y >> 6u8);
            let c2 = (y & 63u8) >> 1u8;
            let c3 = ((y & 1u8) << 4u8) | (z >> 4u8);
            let c4 = ((z & 15u8) << 1u8) | (u >> 7u8);
            let c5 = (u & 127u8) >> 2u8;
            let c6 = ((u & 3u8) << 3u8) | (v >> 5u8);
            let c7 = v & 31u8;
            assert(c[0] == c0 && c[1] == c1 && c[2] == c2 && c[3] == c3 && c[4] == c4 && c[5] == c5 && c[6] == c6
                && c[7] == c7);
            assert((c0 << 3u8) | (c1 >> 2u8) == x) by (bit_vector)
                requires
                    c0 == x >> 3u8,
                    c1 == ((x & 7u8) << 2u8) | (y >> 6u8),
            ;
            assert((c1 << 6u8) | (c2 << 1u8) | (c3 >> 4u8) == y) by (bit_vector)
                requires
                    c1 == ((x & 7u8) << 2u8) | (y >> 6u8),
                    c2 == (y & 63u8) >> 1u8,
                    c3 == ((y & 1u8) << 4u8) | (z >> 4u8),
            ;
            assert((c3 << 4u8) | (c4 >> 1u8) == z) by (bit_vector)
                requires
                    c3 == ((y & 1u8) << 4u8) | (z >> 4u8),
                    c4 == ((z & 15u8) << 1u8) | (u >> 7u8),
            ;
            assert((c4 << 7u8) | (c5 << 2u8) | (c6 >> 3u8) == u) by (bit_vector)
                requires
                    c4 == ((z & 15u8) << 1u8) | (u >> 7u8),
                    c5 == (u & 127u8) >> 2u8,
                    c6 == ((u & 3u8) << 3u8) | (v >> 5u8),
            ;
            assert((c6 << 5u8) | c7 == v) by (bit_vector)
                requires
                    c6 == ((u & 3u8) << 3u8) | (v >> 5u8),
                    c7 == v & 31u8,
            ;
            assert(group_bytes(a, c) =~= g);
        },
    }
    assert forall|i: int| 0 <= i < c.len() implies #[trigger] c[i] < PAD_CODE by {
        assert(code_of(a, gs[i]) < radix(a));
    }
}


/// Decoding the symbols of a partial group gives its bytes back.
proof fn lemma_tail_round_trip(a: Alphabet, t: Seq<u8>)
    requires
        0 < t.len() < in_len(a),
    ensures
        !all_data(codes(a, tail_symbols(a, t))),
        final_bytes(a, codes(a, tail_symbols(a, t))) == Some(t),
{
    let n = in_len(a);
    let z = zero_filled(t, n);
    let k = tail_data_len(a, t.len());
    let ts = tail_symbols(a, t);
    let c = codes(a, ts);
    let cz = codes(a, group_symbols(a, z));
    lemma_group_round_trip(a, z);
    lemma_tail_symbols_shape(a, t);
    lemma_group_symbols_shape(a, z);
    assert forall|i: int| 0 <= i < k implies #[trigger] c[i] == cz[i] && c[i] < PAD_CODE by {
        assert(ts[i] == group_symbols(a, z)[i]);
        assert(cz[i] < PAD_CODE);
    }
    assert forall|i: int| k <= i < out_len(a) implies #[trigger] c[i] == PAD_CODE by {
        assert(ts[i] == PAD);
    }
    assert(padded_at(c, k as int));
    assert(c[k as int] == PAD_CODE);
    assert(group_bytes(a, cz) == z);
    let gb = group_bytes(a, c);
    let r = t.len() as int;
    assert(z.take(r) == t);
    match a {
        Alphabet::Base64 => {
            if r == 1 {
                assert(gb.take(1) =~= z.take(1));
            } else {
                assert(gb.take(2) =~= z.take(2));
            }
        },
        Alphabet::Base32 => {
            if r == 1 {
                assert(gb.take(1) =~= z.take(1));
            } else if r == 2 {
                assert(gb.take(2) =~= z.take(2));
            } else if r == 3 {
                assert(gb.take(3) =~= z.take(3));
            } else {
                assert(gb.take(4) =~= z.take(4));
            }
        },
    }
}


/// The codes of the symbols of group `j` are those of the `j`-th group of
/// data, encoded.
proof fn lemma_group_at(a: Alphabet, d: Seq<u8>, j: nat)
    requires
        j < d.len() / in_len(a),
    ensures
        ({
            let n = in_len(a) as int;
            let m = out_len(a) as int;
            &&& n * j + n <= d.len()
            &&& m * j + m <= symbols(a, d).len()
            &&& codes(a, symbols(a, d)).subrange(m * j, m * j + m) == codes(a, group_symbols(a, d.subrange(n * j, n * j + n)))
        }),
{
    let n = in_len(a) as int;
    let m = out_len(a) as int;
    let s = symbols(a, d);
    lemma_symbols_len(a, d);
    match a {
        Alphabet::Base64 => {
            assert(3 * j + 3 <= d.len() && 4 * j + 4 <= s.len());
        },
        Alphabet::Base32 => {
            assert(5 * j + 5 <= d.len() && 8 * j + 8 <= s.len());
        },
    }
    lemma_symbols_skip(a, d, j);
    let tail = d.skip(n * j);
    let g = tail.take(n);
    assert(g == d.subrange(n * j, n * j + n));
    assert(symbols(a, tail) == group_symbols(a, g) + symbols(a, tail.skip(n)));
    lemma_group_symbols_shape(a, g);
    assert(s.subrange(m * j, m * j + m) =~= symbols(a, tail).take(m));
    assert(symbols(a, tail).take(m) =~= group_symbols(a, g));
    assert(codes(a, s).subrange(m * j, m * j + m) =~= codes(a, group_symbols(a, g)));
}

/// Reading the symbols of the first `j` whole groups of `d` decodes them.
proof fn lemma_run_groups(a: Alphabet, ig: bool, d: Seq<u8>, j: nat)
    requires
        j <= d.len() / in_len(a),
    ensures
        run(a, ig, codes(a, symbols(a, d)), j) == (Progress {
            out: d.take((in_len(a) * j) as int),
            ended: false,
            phase: Phase::Running,
        }),
    decreases j,
{
    let n = in_len(a) as int;
    let m = out_len(a) as int;
    if j == 0 {
        assert(d.take(0) == Seq::<u8>::empty());
    } else {
        let i = (j - 1) as nat;
        lemma_run_groups(a, ig, d, i);
        lemma_group_at(a, d, i);
        let g = d.subrange(n * i, n * i + n);
        lemma_group_round_trip(a, g);
        assert(m * i + m == m * j);
        assert(d.take(n * i) + g =~= d.take(n * j));
    }
}

/// Reading a whole encoding decodes it, with no failure.
proof fn lemma_progress_encoding(a: Alphabet, ig: bool, d: Seq<u8>, wrap: Option<usize>)
    ensures
        progress(a, ig, encode_spec(a, d, wrap)).out == d,
        progress(a, ig, encode_spec(a, d, wrap)).phase != Phase::Failed,
        !has_invalid(a, encode_spec(a, d, wrap)),
{
    let n = in_len(a) as int;
    let m = out_len(a) as int;
    let s = symbols(a, d);
    let t = codes(a, s);
    let q = d.len() / in_len(a);
    lemma_encoding_codes(a, d, wrap);
    lemma_symbols_len(a, d);
    lemma_run_groups(a, ig, d, q);
    if d.len() % in_len(a) == 0 {
        match a {
            Alphabet::Base64 => {
                assert(t.len() / 4 == q);
                assert(3 * q == d.len());
            },
            Alphabet::Base32 => {
                assert(t.len() / 8 == q);
                assert(5 * q == d.len());
            },
        }
        assert(d.take(d.len() as int) == d);
    } else {
        let lo = n * q;
        match a {
            Alphabet::Base64 => {
                assert(t.len() / 4 == q + 1);
                assert(0 < d.len() - 3 * q < 3);
            },
            Alphabet::Base32 => {
                assert(t.len() / 8 == q + 1);
                assert(0 < d.len() - 5 * q < 5);
            },
        }
        lemma_symbols_skip(a, d, q);
        let rest = d.skip(lo);
        assert(symbols(a, rest) == tail_symbols(a, rest));
        lemma_tail_round_trip(a, rest);
        assert(t.subrange(m * q, m * (q + 1)) =~= codes(a, tail_symbols(a, rest)));
        assert(d.take(lo) + rest =~= d);
    }
}

/// Decoding an encoding gives the data back, whatever the wrap width and
/// whether or not invalid bytes are ignored.
pub proof fn lemma_round_trip(a: Alphabet, d: Seq<u8>, wrap: Option<usize>, ignore_garbage: bool)
    ensures
        decode_spec(a, encode_spec(a, d, wrap), ignore_garbage) == Ok::<Seq<u8>, CodecError>(d),
{
    lemma_progress_encoding(a, ignore_garbage, d, wrap);
}

/// `x` with its invalid bytes taken out.
pub open spec fn without_invalid(a: Alphabet, x: Seq<u8>) -> Seq<u8>
    decreases x.len(),
{
    if x.len() == 0 {
        x
    } else if code_of(a, x.last()) == INVALID_CODE {
        without_invalid(a, x.drop_last())
    } else {
        without_invalid(a, x.drop_last()).push(x.last())
    }
}

/// Invalid bytes are never kept.
proof fn lemma_kept_without_invalid(a: Alphabet, x: Seq<u8>)
    ensures
        kept(a, x) == kept(a, without_invalid(a, x)),
    decreases x.len(),
{
    if x.len() > 0 {
        let y = x.drop_last();
        let b = x.last();
        lemma_kept_without_invalid(a, y);
        assert(y.push(b) == x);
        crate::decoder::lemma_kept_push(a, y, b);
        if code_of(a, b) != INVALID_CODE {
            crate::decoder::lemma_kept_push(a, without_invalid(a, y), b);
        }
    }
}

/// Garbage inserted anywhere into an encoding is skipped when invalid bytes
/// are ignored, which gives the data back; otherwise the decode fails.
pub proof fn lemma_garbage_tolerance(a: Alphabet, d: Seq<u8>, wrap: Option<usize>, x: Seq<u8>)
    requires
        without_invalid(a, x) == encode_spec(a, d, wrap),
    ensures
        decode_spec(a, x, true) == Ok::<Seq<u8>, CodecError>(d),
        has_invalid(a, x) ==> decode_spec(a, x, false) == Err::<Seq<u8>, CodecError>(CodecError::InvalidInput),
{
    lemma_progress_encoding(a, true, d, wrap);
    lemma_kept_without_invalid(a, x);
}

} // verus!
