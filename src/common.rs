use vstd::prelude::*;
use crate::alphabet::NEWLINE;

verus! {

/// The symbols `s` written from column `col` of lines `w` wide: a line break
/// goes before each symbol that would start past the end of a full line.
pub open spec fn wrapped(s: Seq<u8>, w: nat, col: nat) -> Seq<u8>
    decreases s.len(),
{
    if s.len() == 0 {
        Seq::empty()
    } else if col >= w {
        seq![NEWLINE, s[0]] + wrapped(s.drop_first(), w, 1)
    } else {
        seq![s[0]] + wrapped(s.drop_first(), w, col + 1)
    }
}

/// The column reached after writing `n` symbols from column `col`.
pub open spec fn col_after(n: nat, w: nat, col: nat) -> nat
    decreases n,
{
    if n == 0 {
        col
    } else if col >= w {
        col_after((n - 1) as nat, w, 1)
    } else {
        col_after((n - 1) as nat, w, col + 1)
    }
}

/// What writing `s` from column `col` appends: `s` itself without wrapping.
pub open spec fn write_spec(s: Seq<u8>, wrap: Option<usize>, col: nat) -> Seq<u8> {
    match wrap {
        None => s,
        Some(w) => wrapped(s, w as nat, col),
    }
}

/// The column after writing `n` symbols from `col`.
pub open spec fn next_col(n: nat, wrap: Option<usize>, col: nat) -> nat {
    match wrap {
        None => col,
        Some(w) => col_after(n, w as nat, col),
    }
}

/// The first `k` symbols of a line that has room for them go out as they are.
pub proof fn lemma_wrapped_prefix(s: Seq<u8>, w: nat, col: nat, k: nat)
    requires
        col + k <= w,
        k <= s.len(),
    ensures
        wrapped(s, w, col) == s.take(k as int) + wrapped(s.skip(k as int), w, col + k),
        col_after(s.len(), w, col) == col_after((s.len() - k) as nat, w, col + k),
    decreases k,
{
    if k > 0 {
        lemma_wrapped_prefix(s.drop_first(), w, col + 1, (k - 1) as nat);
        assert(s.drop_first().skip(k - 1) == s.skip(k as int));
        assert(s.take(k as int) == seq![s[0]] + s.drop_first().take(k - 1));
    } else {
        assert(s.skip(0) == s);
    }
}

/// On a full line, the next symbol starts a new line.
pub proof fn lemma_wrapped_full_line(s: Seq<u8>, w: nat)
    requires
        s.len() > 0,
        w > 0,
    ensures
        wrapped(s, w, w) == seq![NEWLINE] + wrapped(s, w, 0),
        col_after(s.len(), w, w) == col_after(s.len(), w, 0),
{
    assert(wrapped(s, w, 0) == seq![s[0]] + wrapped(s.drop_first(), w, 1));
    assert(seq![NEWLINE, s[0]] + wrapped(s.drop_first(), w, 1) == seq![NEWLINE] + (seq![s[0]]
        + wrapped(s.drop_first(), w, 1)));
}

/// Wrapping a concatenation wraps the second part from where the first ended.
pub proof fn lemma_wrapped_concat(s1: Seq<u8>, s2: Seq<u8>, w: nat, col: nat)
    ensures
        wrapped(s1 + s2, w, col) == wrapped(s1, w, col) + wrapped(s2, w, col_after(s1.len(), w, col)),
        col_after((s1.len() + s2.len()) as nat, w, col) == col_after(s2.len(), w, col_after(s1.len(), w, col)),
    decreases s1.len(),
{
    if s1.len() == 0 {
        assert(s1 + s2 == s2);
    } else {
        let c2: nat = if col >= w { 1 } else { col + 1 };
        lemma_wrapped_concat(s1.drop_first(), s2, w, c2);
        assert((s1 + s2).drop_first() == s1.drop_first() + s2);
        assert((s1 + s2)[0] == s1[0]);
        if col >= w {
            assert(seq![NEWLINE, s1[0]] + (wrapped(s1.drop_first(), w, c2) + wrapped(s2, w, col_after(s1.len(), w, col)))
                == (seq![NEWLINE, s1[0]] + wrapped(s1.drop_first(), w, c2)) + wrapped(s2, w, col_after(s1.len(), w, col)));
        } else {
            assert(seq![s1[0]] + (wrapped(s1.drop_first(), w, c2) + wrapped(s2, w, col_after(s1.len(), w, col)))
                == (seq![s1[0]] + wrapped(s1.drop_first(), w, c2)) + wrapped(s2, w, col_after(s1.len(), w, col)));
        }
    }
}

/// Writes the first `len` bytes of `buffer` to `out`, breaking lines after
/// `wrap_col` symbols when it is set, and returns the new column.
pub fn wrapping_write(
    buffer: &[u8],
    len: usize,
    wrap_col: Option<usize>,
    current_col: usize,
    out: &mut Vec<u8>,
) -> (r: usize)
    requires
        len <= buffer@.len(),
        wrap_col matches Some(w) ==> w > 0 && current_col <= w,
    ensures
        final(out)@ == old(out)@ + write_spec(buffer@.take(len as int), wrap_col, current_col as nat),
        r == next_col(len as nat, wrap_col, current_col as nat),
        wrap_col matches Some(w) ==> r <= w,
{
    let ghost s = buffer@.take(len as int);
    match wrap_col {
        None => {
            let mut i: usize = 0;
            while i < len
                invariant
                    i <= len,
                    len <= buffer@.len(),
                    s == buffer@.take(len as int),
                    out@ == old(out)@ + s.take(i as int),
                decreases len - i,
            {
                out.push(buffer[i]);
                i += 1;
                assert(s.take(i as int) == s.take(i - 1) + seq![s[i - 1]]);
            }
            assert(s.take(len as int) == s);
            current_col
        },
        Some(line_length) => {
            let mut col: usize = current_col;
            let mut written: usize = 0;
            assert(s.skip(0) == s);
            while written < len
                invariant
                    written <= len,
                    len <= buffer@.len(),
                    line_length > 0,
                    col <= line_length,
                    s == buffer@.take(len as int),
                    old(out)@ + wrapped(s, line_length as nat, current_col as nat) == out@
                        + wrapped(s.skip(written as int), line_length as nat, col as nat),
                    col_after(len as nat, line_length as nat, current_col as nat) == col_after(
                        (len - written) as nat,
                        line_length as nat,
                        col as nat,
                    ),
                decreases 2 * (len - written) + (if col == line_length { 1int } else { 0int }),
            {
                let line_remaining: usize = line_length - col;
                let byte_remaining: usize = len - written;
                let n: usize = if line_remaining < byte_remaining {
                    line_remaining
                } else {
                    byte_remaining
                };
                let ghost rest = s.skip(written as int);
                proof {
                    lemma_wrapped_prefix(rest, line_length as nat, col as nat, n as nat);
                }
                let ghost before = out@;
                let mut j: usize = 0;
                while j < n
                    invariant
                        j <= n,
                        written + n <= len,
                        len <= buffer@.len(),
                        s == buffer@.take(len as int),
                        rest == s.skip(written as int),
                        out@ == before + rest.take(j as int),
                    decreases n - j,
                {
                    out.push(buffer[written + j]);
                    j += 1;
                    assert(rest.take(j as int) == rest.take(j - 1) + seq![rest[j - 1]]);
                }
                assert(rest.skip(n as int) == s.skip((written + n) as int));
                written += n;
                if n == byte_remaining {
                    col += n;
                } else {
                    proof {
                        lemma_wrapped_full_line(s.skip(written as int), line_length as nat);
                    }
                    out.push(NEWLINE);
                    col = 0;
                }
            }
            assert(s.skip(written as int).len() == 0);
            col
        },
    }
}


/// Where the line breaks of a wrapped text fall: at the positions `i` with
/// `(i + 1 + col) % (w + 1) == 0`, and nowhere else; a non-empty text ends
/// with its last symbol.
pub proof fn lemma_wrapped_breaks(s: Seq<u8>, w: nat, col: nat)
    requires
        w > 0,
        col <= w,
        forall|i: int| 0 <= i < s.len() ==> #[trigger] s[i] != NEWLINE,
    ensures
        forall|i: int|
            0 <= i < wrapped(s, w, col).len() ==> (#[trigger] wrapped(s, w, col)[i] == NEWLINE <==> (i + 1
                + col) % (w + 1) as int == 0),
        s.len() > 0 ==> wrapped(s, w, col).len() > 0 && wrapped(s, w, col).last() == s.last(),
    decreases s.len(),
{
    if s.len() > 0 {
        let rest = s.drop_first();
        let out = wrapped(s, w, col);
        let m = (w + 1) as int;
        if col >= w {
            lemma_wrapped_breaks(rest, w, 1);
            let r = wrapped(rest, w, 1);
            assert(out == seq![NEWLINE, s[0]] + r);
            assert forall|i: int| 0 <= i < out.len() implies (#[trigger] out[i] == NEWLINE <==> (i + 1 + col) % m
                == 0) by {
                if i == 0 {
                    vstd::arithmetic::div_mod::lemma_mod_self_0(m);
                } else if i == 1 {
                    vstd::arithmetic::div_mod::lemma_mod_add_multiples_vanish(1, m);
                    vstd::arithmetic::div_mod::lemma_small_mod(1, m as nat);
                } else {
                    assert(out[i] == r[i - 2]);
                    vstd::arithmetic::div_mod::lemma_mod_add_multiples_vanish(i, m);
                }
            }
            if rest.len() == 0 {
                assert(out.last() == s[0]);
            } else {
                assert(out.last() == r.last());
                assert(rest.last() == s.last());
            }
        } else {
            lemma_wrapped_breaks(rest, w, col + 1);
            let r = wrapped(rest, w, col + 1);
            assert(out == seq![s[0]] + r);
            assert forall|i: int| 0 <= i < out.len() implies (#[trigger] out[i] == NEWLINE <==> (i + 1 + col) % m
                == 0) by {
                if i == 0 {
                    vstd::arithmetic::div_mod::lemma_small_mod((1 + col) as nat, m as nat);
                } else {
                    assert(out[i] == r[i - 1]);
                }
            }
            if rest.len() == 0 {
                assert(out.last() == s[0]);
            } else {
                assert(out.last() == r.last());
                assert(rest.last() == s.last());
            }
        }
    }
}

} // verus!
