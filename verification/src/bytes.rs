//! The byte image of a run of words, and moving bytes into and out of words.
use crate::data_buf::Pod;
use vstd::arithmetic::div_mod::{
    lemma_fundamental_div_mod, lemma_fundamental_div_mod_converse, lemma_mod_pos_bound,
};
use vstd::layout::size_of;
use vstd::prelude::*;

verus! {

/// The number of words of `size` bytes each that hold `len` bytes.
pub open spec fn words_for(len: nat, size: nat) -> nat
    recommends
        size > 0,
{
    if len % size == 0 {
        len / size
    } else {
        len / size + 1
    }
}

/// The number of words of type `W` that hold `len` bytes.
pub open spec fn spec_round_to_words<W>(len: nat) -> nat {
    words_for(len, size_of::<W>())
}

/// The bytes of a run of words, word after word.
pub open spec fn bytes_of<W: Pod>(words: Seq<W>) -> Seq<u8> {
    Seq::new(
        words.len() * size_of::<W>(),
        |i: int| words[i / (size_of::<W>() as int)].spec_bytes()[i % (size_of::<W>() as int)],
    )
}

/// `bytes` with the bytes from `at` on replaced by `patch`.
pub open spec fn patched(bytes: Seq<u8>, at: int, patch: Seq<u8>) -> Seq<u8>
    recommends
        0 <= at,
        at + patch.len() <= bytes.len(),
{
    Seq::new(
        bytes.len(),
        |i: int|
            if at <= i < at + patch.len() {
                patch[i - at]
            } else {
                bytes[i]
            },
    )
}

/// `words_for(len, size)` words are enough for `len` bytes, and one fewer is not.
pub proof fn lemma_words_for(len: nat, size: nat)
    requires
        size > 0,
    ensures
        len <= words_for(len, size) * size < len + size,
        words_for(len, size) <= len,
        len == 0 ==> words_for(len, size) == 0,
{
    let q = (len as int) / (size as int);
    let r = (len as int) % (size as int);
    lemma_fundamental_div_mod(len as int, size as int);
    lemma_mod_pos_bound(len as int, size as int);
    assert(len == size * q + r);
    assert(size * q == q * size) by (nonlinear_arith);
    assert((q + 1) * size == q * size + size) by (nonlinear_arith);
    assert(q >= 0 && q * size >= q) by (nonlinear_arith)
        requires
            len == q * size + r,
            0 <= r < size,
            size > 0,
    ;
}

/// More bytes never need fewer words.
pub proof fn lemma_words_for_monotonic(a: nat, b: nat, size: nat)
    requires
        size > 0,
        a <= b,
    ensures
        words_for(a, size) <= words_for(b, size),
{
    lemma_words_for(a, size);
    lemma_words_for(b, size);
    let wa = words_for(a, size) as int;
    let wb = words_for(b, size) as int;
    if wa > wb {
        assert((wb + 1) * size <= wa * size) by (nonlinear_arith)
            requires
                wb + 1 <= wa,
                size > 0,
        ;
        assert((wb + 1) * size == wb * size + size) by (nonlinear_arith);
    }
}

/// The byte at offset `k` of word `j` has index `j * size + k`.
pub proof fn lemma_join_index(j: int, k: int, size: int)
    requires
        0 <= j,
        0 <= k < size,
    ensures
        0 <= j * size + k,
        (j * size + k) / size == j,
        (j * size + k) % size == k,
{
    lemma_fundamental_div_mod_converse(j * size + k, size, j, k);
    assert(j * size >= 0) by (nonlinear_arith)
        requires
            j >= 0,
            size > 0,
    ;
}

/// Byte `i` of a run of `n` words lies in word `i / size`, at offset `i % size`.
pub proof fn lemma_split_index(i: int, n: int, size: int)
    requires
        size > 0,
        0 <= i < n * size,
    ensures
        0 <= i / size < n,
        0 <= i % size < size,
        i == (i / size) * size + i % size,
{
    lemma_fundamental_div_mod(i, size);
    lemma_mod_pos_bound(i, size);
    let q = i / size;
    assert(size * q == q * size) by (nonlinear_arith);
    assert(q >= 0) by (nonlinear_arith)
        requires
            i == q * size + i % size,
            0 <= i,
            i % size < size,
            size > 0,
    ;
    assert(q < n) by (nonlinear_arith)
        requires
            i == q * size + i % size,
            i < n * size,
            0 <= i % size,
            size > 0,
    ;
}

/// The byte image of a run of words has the bytes of each word at its place.
pub proof fn lemma_bytes_of_index<W: Pod>(words: Seq<W>, j: int, k: int)
    requires
        0 <= j < words.len(),
        0 <= k < size_of::<W>(),
    ensures
        0 <= j * size_of::<W>() + k < bytes_of(words).len(),
        bytes_of(words)[j * size_of::<W>() + k] == words[j].spec_bytes()[k],
{
    let size = size_of::<W>() as int;
    lemma_join_index(j, k, size);
    let n = words.len() as int;
    assert(j * size + k < n * size) by (nonlinear_arith)
        requires
            0 <= j,
            j + 1 <= n,
            0 <= k < size,
    ;
    W::lemma_size(words[j]);
}

/// The byte image of two runs of words, one after the other, is the two images,
/// one after the other.
pub proof fn lemma_bytes_of_concat<W: Pod>(a: Seq<W>, b: Seq<W>)
    ensures
        bytes_of(a + b) == bytes_of(a) + bytes_of(b),
{
    W::lemma_size(W::spec_zero());
    let size = size_of::<W>() as int;
    let l = bytes_of(a + b);
    let r = bytes_of(a) + bytes_of(b);
    assert((a.len() + b.len()) * size == a.len() * size + b.len() * size) by (nonlinear_arith);
    assert(l.len() == r.len());
    assert forall|i: int| 0 <= i < l.len() implies l[i] == r[i] by {
        lemma_split_index(i, (a + b).len() as int, size);
        let j = i / size;
        let k = i % size;
        if i < a.len() * size {
            lemma_split_index(i, a.len() as int, size);
        } else {
            let i2 = i - a.len() * size;
            assert(0 <= i2 < b.len() * size);
            lemma_split_index(i2, b.len() as int, size);
            let j2 = i2 / size;
            assert(i == (j2 + a.len()) * size + i2 % size) by (nonlinear_arith)
                requires
                    i2 == j2 * size + i2 % size,
                    i2 == i - a.len() * size,
            ;
            lemma_join_index(j2 + a.len(), i2 % size, size);
            assert(j == j2 + a.len());
            assert(k == i2 % size);
        }
    }
    assert(l =~= r);
}

/// The byte image of a part of a run of words is that part of the image.
pub proof fn lemma_bytes_of_subrange<W: Pod>(words: Seq<W>, from: int, to: int)
    requires
        0 <= from <= to <= words.len(),
    ensures
        0 <= from * size_of::<W>() <= to * size_of::<W>() <= bytes_of(words).len(),
        bytes_of(words.subrange(from, to)) == bytes_of(words).subrange(
            from * size_of::<W>(),
            to * size_of::<W>(),
        ),
{
    let size = size_of::<W>() as int;
    let a = words.subrange(0, from);
    let b = words.subrange(from, to);
    let c = words.subrange(to, words.len() as int);
    assert(words =~= a + b + c);
    lemma_bytes_of_concat(a, b);
    lemma_bytes_of_concat(a + b, c);
    assert(from * size >= 0 && from * size <= to * size && to * size <= words.len() * size)
        by (nonlinear_arith)
        requires
            0 <= from <= to <= words.len(),
            size >= 0,
    ;
    assert((to - from) * size == to * size - from * size) by (nonlinear_arith);
    assert(bytes_of(b) =~= bytes_of(words).subrange(from * size, to * size));
}

/// A run of words that starts with another has a byte image that starts
/// with the image of the other.
pub proof fn lemma_bytes_of_prefix<W: Pod>(a: Seq<W>, b: Seq<W>)
    requires
        a.len() <= b.len(),
        b.subrange(0, a.len() as int) == a,
    ensures
        bytes_of(a).len() <= bytes_of(b).len(),
        bytes_of(b).subrange(0, bytes_of(a).len() as int) == bytes_of(a),
{
    lemma_bytes_of_subrange(b, 0, a.len() as int);
    assert(0 * size_of::<W>() == 0) by (nonlinear_arith);
}

/// Replacing one byte of one word replaces that byte of the image.
pub proof fn lemma_bytes_of_update<W: Pod>(words: Seq<W>, j: int, k: int, w: W, x: u8)
    requires
        0 <= j < words.len(),
        0 <= k < size_of::<W>(),
        w.spec_bytes() == words[j].spec_bytes().update(k, x),
    ensures
        bytes_of(words.update(j, w)) == bytes_of(words).update(j * size_of::<W>() + k, x),
{
    let size = size_of::<W>() as int;
    let l = bytes_of(words.update(j, w));
    let r = bytes_of(words).update(j * size + k, x);
    lemma_bytes_of_index(words, j, k);
    lemma_join_index(j, k, size);
    W::lemma_size(words[j]);
    W::lemma_size(w);
    assert forall|i: int| 0 <= i < l.len() implies l[i] == r[i] by {
        lemma_split_index(i, words.len() as int, size);
    }
    assert(l =~= r);
}

/// The byte at offset `k` of word `j` of a run of words.
pub fn get_byte<W: Pod>(src: &[W], j: usize, k: usize) -> (r: u8)
    requires
        j < src@.len(),
        k < size_of::<W>(),
    ensures
        r == bytes_of(src@)[j * size_of::<W>() + k],
        r == src@[j as int].spec_bytes()[k as int],
{
    proof {
        lemma_bytes_of_index(src@, j as int, k as int);
        W::lemma_size(src@[j as int]);
    }
    let image = src[j].to_bytes();
    image[k]
}

/// Replaces the byte at offset `k` of word `j` of a run of words.
pub fn set_byte<W: Pod>(dst: &mut [W], j: usize, k: usize, x: u8)
    requires
        j < old(dst)@.len(),
        k < size_of::<W>(),
    ensures
        final(dst)@.len() == old(dst)@.len(),
        bytes_of(final(dst)@) == bytes_of(old(dst)@).update(j * size_of::<W>() + k, x),
        forall|i: int| 0 <= i < old(dst)@.len() && i != j ==> final(dst)@[i] == old(dst)@[i],
{
    proof {
        W::lemma_size(dst@[j as int]);
    }
    let mut image = dst[j].to_bytes();
    image[k] = x;
    let w = W::from_bytes(image.as_slice());
    proof {
        W::lemma_from_to(image@);
        lemma_bytes_of_update(dst@, j as int, k as int, w, x);
    }
    dst[j] = w;
}

/// Copies `src` into a run of words, starting at byte `off` of its image. The
/// bytes before and after the copy stay as they were.
pub fn copy_bytes<W: Pod>(dst: &mut [W], off: usize, src: &[u8])
    requires
        off + src@.len() <= old(dst)@.len() * size_of::<W>(),
    ensures
        final(dst)@.len() == old(dst)@.len(),
        bytes_of(final(dst)@) == patched(bytes_of(old(dst)@), off as int, src@),
{
    proof {
        W::lemma_size(W::spec_zero());
    }
    let size = core::mem::size_of::<W>();
    let n = src.len();
    let len = dst.len();
    let mut j: usize = off / size;
    let mut k: usize = off % size;
    let mut i: usize = 0;
    proof {
        lemma_fundamental_div_mod(off as int, size as int);
        assert(size * (off as int / size as int) == (off as int / size as int) * size)
            by (nonlinear_arith);
        assert(bytes_of(dst@) =~= patched(bytes_of(old(dst)@), off as int, src@.subrange(0, 0)));
    }
    while i < n
        invariant
            size == size_of::<W>(),
            size > 0,
            n == src@.len(),
            i <= n,
            k < size,
            j * size + k == off + i,
            off + n <= dst@.len() * size,
            dst@.len() == old(dst)@.len(),
            len == dst@.len(),
            bytes_of(dst@) == patched(bytes_of(old(dst)@), off as int, src@.subrange(0, i as int)),
        decreases n - i,
    {
        proof {
            lemma_split_index(off + i, dst@.len() as int, size as int);
            lemma_join_index(j as int, k as int, size as int);
            assert(j < len);
        }
        let ghost before = bytes_of(dst@);
        set_byte(dst, j, k, src[i]);
        proof {
            assert(before.update(off + i, src@[i as int]) =~= patched(
                bytes_of(old(dst)@),
                off as int,
                src@.subrange(0, i + 1),
            ));
        }
        i += 1;
        k += 1;
        if k == size {
            k = 0;
            proof {
                assert((j + 1) * size == j * size + size) by (nonlinear_arith);
            }
            j += 1;
        }
    }
    proof {
        assert(src@.subrange(0, n as int) =~= src@);
    }
}

/// The `n` bytes that start at byte `off` of the image of a run of words.
pub fn load_bytes<W: Pod>(src: &[W], off: usize, n: usize) -> (r: Vec<u8>)
    requires
        off + n <= src@.len() * size_of::<W>(),
    ensures
        r@ == bytes_of(src@).subrange(off as int, off + n),
{
    proof {
        W::lemma_size(W::spec_zero());
    }
    let size = core::mem::size_of::<W>();
    let len = src.len();
    let mut r: Vec<u8> = Vec::new();
    let mut j: usize = off / size;
    let mut k: usize = off % size;
    let mut i: usize = 0;
    proof {
        lemma_fundamental_div_mod(off as int, size as int);
        assert(size * (off as int / size as int) == (off as int / size as int) * size)
            by (nonlinear_arith);
    }
    while i < n
        invariant
            size == size_of::<W>(),
            size > 0,
            i <= n,
            k < size,
            j * size + k == off + i,
            off + n <= src@.len() * size,
            len == src@.len(),
            r@ == bytes_of(src@).subrange(off as int, off + i),
        decreases n - i,
    {
        proof {
            lemma_split_index(off + i, src@.len() as int, size as int);
            lemma_join_index(j as int, k as int, size as int);
            assert(j < len);
        }
        let x = get_byte(src, j, k);
        r.push(x);
        proof {
            assert(r@ =~= bytes_of(src@).subrange(off as int, off + i + 1));
        }
        i += 1;
        k += 1;
        if k == size {
            k = 0;
            proof {
                assert((j + 1) * size == j * size + size) by (nonlinear_arith);
            }
            j += 1;
        }
    }
    r
}

} // verus!
