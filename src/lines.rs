//! Splitting text into lines, on its UTF-8 bytes, proved to give `lines_of`.

use vstd::prelude::*;
use crate::text::{lemma_newline_pieces_nonempty, lines_of, newline_pieces, strip_cr};
use vstd::utf8::{
    char_is_scalar, char_u32_cast, encode_scalar, encode_utf8, encode_utf8_decode_utf8,
    encode_utf8_first_scalar, encode_utf8_valid_utf8, is_char_boundary,
};

verus! {

proof fn lemma_high_bit(x: u8)
    by (bit_vector)
    ensures
        (0x80u8 | x) >= 0x80u8,
        (0xC0u8 | x) >= 0x80u8,
        (0xE0u8 | x) >= 0x80u8,
        (0xF0u8 | x) >= 0x80u8,
{
}

proof fn lemma_low_bits(v: u32)
    by (bit_vector)
    requires
        v < 0x80u32,
    ensures
        (v & 0x7Fu32) == v,
{
}

/// Characters with the same code are the same character.
proof fn lemma_same_code(c: char, d: char)
    requires
        c as u32 == d as u32,
    ensures
        c == d,
{
    char_u32_cast(c, c as u32);
    char_u32_cast(d, d as u32);
}

/// A character below 0x80 encodes as its own code; the bytes of any other
/// character all lie at or above 0x80.
proof fn lemma_scalar_bytes(c: char)
    ensures
        encode_scalar(c as u32).len() >= 1,
        (c as u32) < 0x80 ==> encode_scalar(c as u32) == seq![(c as u32) as u8],
        (c as u32) >= 0x80 ==> forall|i: int|
            0 <= i < encode_scalar(c as u32).len() ==> #[trigger] encode_scalar(c as u32)[i]
                >= 0x80,
{
    let v = c as u32;
    char_is_scalar(c);
    if v < 0x80 {
        lemma_low_bits(v);
    } else {
        lemma_high_bit(((v >> 6) & 0x1F) as u8);
        lemma_high_bit(((v >> 12) & 0x0F) as u8);
        lemma_high_bit(((v >> 18) & 0x7) as u8);
        lemma_high_bit((v & 0x3F) as u8);
        lemma_high_bit(((v >> 6) & 0x3F) as u8);
        lemma_high_bit(((v >> 12) & 0x3F) as u8);
    }
}

proof fn lemma_encode_concat(a: Seq<char>, b: Seq<char>)
    ensures
        encode_utf8(a + b) == encode_utf8(a) + encode_utf8(b),
    decreases a.len(),
{
    if a.len() == 0 {
        assert(a + b =~= b);
        assert(encode_utf8(a) + encode_utf8(b) =~= encode_utf8(b));
    } else {
        lemma_encode_concat(a.drop_first(), b);
        assert((a + b).drop_first() =~= a.drop_first() + b);
        assert((a + b)[0] == a[0]);
        assert(encode_utf8(a + b) =~= encode_utf8(a) + encode_utf8(b));
    }
}

proof fn lemma_encode_single(c: char)
    ensures
        encode_utf8(seq![c]) == encode_scalar(c as u32),
{
    assert(seq![c].drop_first() =~= Seq::<char>::empty());
    assert(encode_utf8(seq![c].drop_first()) =~= Seq::<u8>::empty());
    assert(seq![c][0] == c);
    assert(encode_utf8(seq![c]) =~= encode_scalar(c as u32));
}

proof fn lemma_encode_injective(x: Seq<char>, y: Seq<char>)
    requires
        encode_utf8(x) == encode_utf8(y),
    ensures
        x == y,
{
    encode_utf8_decode_utf8(x);
    encode_utf8_decode_utf8(y);
}

/// The encoding of `a` ends on a character boundary of the encoding of `a + c`.
proof fn lemma_boundary(a: Seq<char>, c: Seq<char>)
    ensures
        is_char_boundary(encode_utf8(a + c), encode_utf8(a).len() as int),
    decreases a.len(),
{
    let s = a + c;
    let b = encode_utf8(s);
    encode_utf8_valid_utf8(s);
    if a.len() > 0 {
        encode_utf8_first_scalar(s);
        lemma_scalar_bytes(s[0]);
        assert(s[0] == a[0]);
        assert(s.drop_first() =~= a.drop_first() + c);
        lemma_encode_concat(a, c);
        lemma_boundary(a.drop_first(), c);
        let e = encode_scalar(s[0] as u32);
        assert(b.subrange(e.len() as int, b.len() as int) =~= encode_utf8(s.drop_first()));
    }
}

/// The first newline byte of an encoding is the encoding of the first
/// newline character.
proof fn lemma_first_newline(s: Seq<char>, i: int)
    requires
        0 <= i < encode_utf8(s).len(),
        encode_utf8(s)[i] == 10,
        forall|m: int| 0 <= m < i ==> encode_utf8(s)[m] != 10,
    ensures
        exists|k: int|
            0 <= k < s.len() && s[k] == '\n' && !s.take(k).contains('\n') && encode_utf8(
                #[trigger] s.take(k),
            ).len() == i,
    decreases s.len(),
{
    let c = s[0];
    let e = encode_scalar(c as u32);
    let t = s.drop_first();
    lemma_scalar_bytes(c);
    assert(encode_utf8(s) == e + encode_utf8(t));
    if c == '\n' {
        assert(encode_utf8(s)[0] == 10);
        assert(s.take(0) =~= Seq::<char>::empty());
        assert(!s.take(0).contains('\n'));
        assert(encode_utf8(s.take(0)).len() == 0);
    } else {
        if c as u32 == 10 {
            lemma_same_code(c, '\n');
        }
        if i < e.len() {
            assert(encode_utf8(s)[i] == e[i]);
        }
        let n = e.len() as int;
        assert forall|m: int| 0 <= m < i - n implies encode_utf8(t)[m] != 10 by {
            assert(encode_utf8(s)[m + n] == encode_utf8(t)[m]);
        }
        lemma_first_newline(t, i - n);
        let k = choose|k: int|
            0 <= k < t.len() && t[k] == '\n' && !t.take(k).contains('\n') && encode_utf8(
                #[trigger] t.take(k),
            ).len() == i - n;
        assert(s.take(k + 1) =~= seq![c] + t.take(k));
        lemma_encode_concat(seq![c], t.take(k));
        lemma_encode_single(c);
        assert(s[k + 1] == t[k]);
        assert(!s.take(k + 1).contains('\n')) by {
            if s.take(k + 1).contains('\n') {
                let m = choose|m: int| 0 <= m < k + 1 && #[trigger] s.take(k + 1)[m] == '\n';
                if m > 0 {
                    assert(t.take(k)[m - 1] == '\n');
                }
            }
        }
    }
}

/// A newline character shows as a newline byte in the encoding.
proof fn lemma_newline_byte(s: Seq<char>, k: int)
    requires
        0 <= k < s.len(),
        s[k] == '\n',
    ensures
        encode_utf8(s.take(k)).len() < encode_utf8(s).len(),
        encode_utf8(s)[encode_utf8(s.take(k)).len() as int] == 10,
{
    assert(s =~= s.take(k) + (seq![s[k]] + s.skip(k + 1)));
    lemma_encode_concat(s.take(k), seq![s[k]] + s.skip(k + 1));
    lemma_encode_concat(seq![s[k]], s.skip(k + 1));
    lemma_encode_single(s[k]);
    lemma_scalar_bytes(s[k]);
}

/// The encoding of `s` ends in a carriage-return byte exactly when `s` ends in
/// a carriage return, and the rest of it is the encoding of the rest of `s`.
proof fn lemma_last_char(s: Seq<char>)
    requires
        s.len() > 0,
    ensures
        encode_utf8(s).len() > 0,
        encode_utf8(s)[encode_utf8(s).len() - 1] == 13 <==> s.last() == '\r',
        s.last() == '\r' ==> encode_utf8(s.drop_last()) == encode_utf8(s).take(
            encode_utf8(s).len() - 1,
        ),
{
    let c = s.last();
    assert(s =~= s.drop_last() + seq![c]);
    lemma_encode_concat(s.drop_last(), seq![c]);
    lemma_encode_single(c);
    lemma_scalar_bytes(c);
    let e = encode_scalar(c as u32);
    let b = encode_utf8(s);
    assert(b[b.len() - 1] == e[e.len() - 1]);
    if c == '\r' {
        assert(encode_utf8(s.drop_last()) =~= b.take(b.len() - 1));
    }
    if b[b.len() - 1] == 13 {
        assert((c as u32) == 13);
        lemma_same_code(c, '\r');
    }
}

proof fn lemma_pieces_split(a: Seq<char>, t: Seq<char>)
    requires
        !a.contains('\n'),
    ensures
        newline_pieces(a + seq!['\n'] + t) == seq![a] + newline_pieces(t),
    decreases a.len(),
{
    let s = a + seq!['\n'] + t;
    if a.len() == 0 {
        assert(s.drop_first() =~= t);
        assert(s[0] == '\n');
        assert(a =~= Seq::<char>::empty());
        assert(newline_pieces(s) =~= seq![a] + newline_pieces(t));
    } else {
        assert(s.drop_first() =~= a.drop_first() + seq!['\n'] + t);
        assert(!a.drop_first().contains('\n')) by {
            if a.drop_first().contains('\n') {
                let m = choose|m: int| 0 <= m < a.len() - 1 && #[trigger] a.drop_first()[m] == '\n';
                assert(a[m + 1] == '\n');
            }
        }
        lemma_pieces_split(a.drop_first(), t);
        assert(s[0] == a[0]);
        assert(a[0] != '\n');
        assert(seq![a[0]] + a.drop_first() =~= a);
        let rest = newline_pieces(s.drop_first());
        assert(rest == seq![a.drop_first()] + newline_pieces(t));
        assert(rest[0] == a.drop_first());
        assert(newline_pieces(s) == rest.update(0, seq![s[0]] + rest[0]));
        assert(newline_pieces(s) =~= seq![a] + newline_pieces(t));
    }
}

proof fn lemma_pieces_whole(s: Seq<char>)
    requires
        !s.contains('\n'),
    ensures
        newline_pieces(s) == seq![s],
    decreases s.len(),
{
    if s.len() == 0 {
        assert(s =~= Seq::<char>::empty());
    } else {
        assert(!s.drop_first().contains('\n')) by {
            if s.drop_first().contains('\n') {
                let m = choose|m: int| 0 <= m < s.len() - 1 && #[trigger] s.drop_first()[m] == '\n';
                assert(s[m + 1] == '\n');
            }
        }
        lemma_pieces_whole(s.drop_first());
        assert(s[0] != '\n');
        assert(seq![s[0]] + s.drop_first() =~= s);
        assert(newline_pieces(s) =~= seq![s]);
    }
}

/// A line that ends at a newline comes first, then the lines after it.
proof fn lemma_lines_split(a: Seq<char>, t: Seq<char>)
    requires
        !a.contains('\n'),
    ensures
        lines_of(a + seq!['\n'] + t) == seq![strip_cr(a)] + lines_of(t),
{
    lemma_pieces_split(a, t);
    lemma_newline_pieces_nonempty(t);
    let p = newline_pieces(t);
    let q = seq![a] + p;
    assert(q.drop_last() =~= seq![a] + p.drop_last());
    assert(q.last() == p.last());
    assert(lines_of(a + seq!['\n'] + t) =~= seq![strip_cr(a)] + lines_of(t));
}

/// Text without a newline is one line, or none when it is empty.
proof fn lemma_lines_whole(s: Seq<char>)
    requires
        !s.contains('\n'),
    ensures
        lines_of(s) == (if s.len() == 0 {
            Seq::<Seq<char>>::empty()
        } else {
            seq![s]
        }),
{
    lemma_pieces_whole(s);
    assert(seq![s].drop_last() =~= Seq::<Seq<char>>::empty());
    if s.len() == 0 {
        assert(lines_of(s) =~= Seq::<Seq<char>>::empty());
    } else {
        assert(lines_of(s) =~= seq![s]);
    }
}

/// `line` without a final carriage return.
fn strip_carriage_return<'a>(line: &'a str) -> (r: &'a str)
    ensures
        r@ == strip_cr(line@),
{
    let bytes = line.as_bytes();
    let n: usize = bytes.len();
    proof {
        if line@.len() > 0 {
            lemma_last_char(line@);
        } else {
            assert(line@ =~= Seq::<char>::empty());
        }
    }
    if n > 0 && bytes[n - 1] == 13u8 {
        let ghost s = line@;
        proof {
            assert(s.len() > 0);
            assert(s =~= s.drop_last() + seq![s.last()]);
            lemma_boundary(s.drop_last(), seq![s.last()]);
        }
        let (head, _cr) = line.split_at(n - 1);
        proof {
            assert(encode_utf8(head@) == encode_utf8(s.drop_last()));
            lemma_encode_injective(head@, s.drop_last());
        }
        head
    } else {
        line
    }
}

/// The lines of `content`: split at `'\n'`, a `'\r'` right before it
/// removed, and no empty line after a final line ending.
pub(crate) fn split_lines<'a>(content: &'a str) -> (r: Vec<&'a str>)
    ensures
        r@.map_values(|l: &'a str| l@) == lines_of(content@),
{
    let mut out: Vec<&'a str> = Vec::new();
    let mut rest: &'a str = content;
    let mut done = false;
    while !done
        invariant
            done ==> lines_of(content@) == out@.map_values(|l: &'a str| l@),
            !done ==> lines_of(content@) == out@.map_values(|l: &'a str| l@) + lines_of(rest@),
        decreases (if done { 0 } else { rest@.len() + 1 }),
    {
        let ghost s = rest@;
        let ghost before = out@.map_values(|l: &'a str| l@);
        let bytes = rest.as_bytes();
        let mut j: usize = 0;
        while j < bytes.len() && bytes[j] != 10u8
            invariant
                j <= bytes.len(),
                bytes@ == encode_utf8(s),
                forall|m: int| 0 <= m < j ==> bytes@[m] != 10,
            decreases bytes.len() - j,
        {
            j = j + 1;
        }
        if j == bytes.len() {
            proof {
                assert(!s.contains('\n')) by {
                    if s.contains('\n') {
                        let k = choose|k: int| 0 <= k < s.len() && #[trigger] s[k] == '\n';
                        lemma_newline_byte(s, k);
                    }
                }
                lemma_lines_whole(s);
            }
            if j > 0 {
                out.push(rest);
                proof {
                    assert(out@.map_values(|l: &'a str| l@) =~= before.push(s));
                    assert(before.push(s) =~= before + seq![s]);
                }
            } else {
                proof {
                    assert(s.len() == 0) by {
                        if s.len() > 0 {
                            lemma_scalar_bytes(s[0]);
                        }
                    }
                    assert(before + lines_of(s) =~= before);
                }
            }
            done = true;
        } else {
            let ghost k: int;
            proof {
                lemma_first_newline(s, j as int);
                k = choose|k: int|
                    0 <= k < s.len() && s[k] == '\n' && !s.take(k).contains('\n') && encode_utf8(
                        #[trigger] s.take(k),
                    ).len() == j;
                assert(s =~= s.take(k) + s.skip(k));
                lemma_encode_concat(s.take(k), s.skip(k));
                lemma_boundary(s.take(k), s.skip(k));
            }
            let (line, tail) = rest.split_at(j);
            proof {
                assert(encode_utf8(line@) =~= encode_utf8(s.take(k)));
                lemma_encode_injective(line@, s.take(k));
                assert(encode_utf8(tail@) =~= encode_utf8(s.skip(k)));
                lemma_encode_injective(tail@, s.skip(k));
                assert(s.skip(k) =~= seq!['\n'] + s.skip(k + 1));
                lemma_encode_concat(seq!['\n'], s.skip(k + 1));
                lemma_encode_single('\n');
                lemma_scalar_bytes('\n');
                lemma_boundary(seq!['\n'], s.skip(k + 1));
            }
            let (_newline, next) = tail.split_at(1);
            proof {
                assert(encode_utf8(next@) =~= encode_utf8(s.skip(k + 1)));
                lemma_encode_injective(next@, s.skip(k + 1));
                assert(s =~= s.take(k) + seq!['\n'] + s.skip(k + 1));
                lemma_lines_split(s.take(k), s.skip(k + 1));
                assert(next@.len() < s.len());
            }
            let piece = strip_carriage_return(line);
            out.push(piece);
            proof {
                assert(out@.map_values(|l: &'a str| l@) =~= before.push(piece@));
                assert(before + lines_of(s) =~= before.push(piece@) + lines_of(next@));
            }
            rest = next;
        }
    }
    out
}

} // verus!
