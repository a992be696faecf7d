//! Little-endian byte strings and the numbers they stand for.

use vstd::arithmetic::div_mod::lemma_div_denominator;
use vstd::arithmetic::power::{lemma_pow_increases, lemma_pow_positive, pow};
use vstd::prelude::*;

verus! {

/// The `n` low-order bytes of `x`, least significant byte first.
pub open spec fn le_bytes(x: nat, n: nat) -> Seq<u8>
    decreases n,
{
    if n == 0 {
        Seq::empty()
    } else {
        seq![(x % 256) as u8] + le_bytes(x / 256, (n - 1) as nat)
    }
}

/// The number that a byte string stands for, least significant byte first.
pub open spec fn le_value(s: Seq<u8>) -> nat
    decreases s.len(),
{
    if s.len() == 0 {
        0
    } else {
        s[0] as nat + 256 * le_value(s.skip(1))
    }
}

/// `n` bytes are written for a number, whatever the number is.
pub proof fn le_bytes_len(x: nat, n: nat)
    ensures
        le_bytes(x, n).len() == n,
    decreases n,
{
    if n > 0 {
        le_bytes_len(x / 256, (n - 1) as nat);
    }
}

/// Byte `i` of a number is its digit of that place in base 256.
pub proof fn le_bytes_are_digits(x: nat, n: nat, i: nat)
    requires
        i < n,
    ensures
        le_bytes(x, n).len() == n,
        le_bytes(x, n)[i as int] == (x as int / pow(256, i)) % 256,
    decreases n,
{
    le_bytes_len(x, n);
    le_bytes_len(x / 256, (n - 1) as nat);
    reveal(pow);
    if i > 0 {
        let k = (i - 1) as nat;
        le_bytes_are_digits(x / 256, (n - 1) as nat, k);
        lemma_pow_positive(256, k);
        lemma_div_denominator(x as int, 256, pow(256, k));
        assert(le_bytes(x, n)[i as int] == le_bytes(x / 256, (n - 1) as nat)[k as int]);
    } else {
        assert(pow(256, 0) == 1);
        assert(x as int / 1 == x);
    }
}

/// What two, four and eight bytes stand for: the first is the least significant
/// one.
pub proof fn le_value_of_few(s: Seq<u8>)
    ensures
        s.len() == 2 ==> le_value(s) == s[0] + 0x100 * s[1],
        s.len() == 4 ==> le_value(s) == s[0] + 0x100 * s[1] + 0x1_0000 * s[2] + 0x100_0000 * s[3],
        s.len() == 8 ==> le_value(s) == s[0] + 0x100 * s[1] + 0x1_0000 * s[2] + 0x100_0000 * s[3]
            + 0x1_0000_0000 * s[4] + 0x100_0000_0000 * s[5] + 0x1_0000_0000_0000 * s[6]
            + 0x100_0000_0000_0000 * s[7],
{
    if s.len() == 2 || s.len() == 4 || s.len() == 8 {
        reveal_with_fuel(le_value, 9);
        assert forall|k: int| 0 <= k < s.len() implies s.skip(k).skip(1) == #[trigger] s.skip(
            k + 1,
        ) by {
            assert(s.skip(k).skip(1) =~= s.skip(k + 1));
        }
        assert(s.skip(0) =~= s);
        assert(s.skip(1) == s.skip(0).skip(1));
        assert(s.skip(2) == s.skip(1).skip(1));
        if s.len() > 2 {
            assert(s.skip(3) == s.skip(2).skip(1));
            assert(s.skip(4) == s.skip(3).skip(1));
        }
        if s.len() > 4 {
            assert(s.skip(5) == s.skip(4).skip(1));
            assert(s.skip(6) == s.skip(5).skip(1));
            assert(s.skip(7) == s.skip(6).skip(1));
            assert(s.skip(8) == s.skip(7).skip(1));
        }
    }
}

/// Reading back the bytes of a number that fits in them gives the number.
pub proof fn le_value_of_le_bytes(x: nat, n: nat)
    requires
        x < pow(256, n),
    ensures
        le_value(le_bytes(x, n)) == x,
    decreases n,
{
    reveal(pow);
    if n > 0 {
        let rest = (n - 1) as nat;
        assert(x / 256 < pow(256, rest)) by (nonlinear_arith)
            requires
                x < pow(256, n),
                pow(256, n) == 256 * pow(256, rest),
        ;
        le_value_of_le_bytes(x / 256, rest);
        assert(le_bytes(x, n).skip(1) =~= le_bytes(x / 256, rest));
        assert(le_bytes(x, n)[0] == (x % 256) as u8);
    }
}

/// Writing back the number of a byte string gives the byte string.
pub proof fn le_bytes_of_le_value(s: Seq<u8>)
    ensures
        le_bytes(le_value(s), s.len()) == s,
    decreases s.len(),
{
    if s.len() > 0 {
        le_bytes_of_le_value(s.skip(1));
        let v = le_value(s);
        assert(v % 256 == s[0] as nat);
        assert(v / 256 == le_value(s.skip(1)));
        assert(le_bytes(v, s.len()) =~= s) by {
            assert(s =~= seq![s[0]] + s.skip(1));
        }
    } else {
        assert(le_bytes(le_value(s), 0) =~= s);
    }
}

/// A byte string of `n` bytes stands for a number below `256` to the `n`.
pub proof fn le_value_bound(s: Seq<u8>)
    ensures
        le_value(s) < pow(256, s.len()),
    decreases s.len(),
{
    reveal(pow);
    if s.len() > 0 {
        le_value_bound(s.skip(1));
    }
}

/// The powers of `256` that machine words reach.
pub proof fn pow_256_values()
    ensures
        pow(256, 2) == 0x1_0000,
        pow(256, 4) == 0x1_0000_0000,
        pow(256, 8) == 0x1_0000_0000_0000_0000,
{
    reveal_with_fuel(pow, 9);
}

/// Appends the `n` low-order bytes of `x`, least significant byte first.
pub fn push_le(out: &mut Vec<u8>, x: u64, n: usize)
    ensures
        final(out)@ == old(out)@ + le_bytes(x as nat, n as nat),
{
    let mut rest: u64 = x;
    let mut k: usize = n;
    assert(out@ + le_bytes(x as nat, n as nat) =~= old(out)@ + le_bytes(x as nat, n as nat));
    while k > 0
        invariant
            out@ + le_bytes(rest as nat, k as nat) == old(out)@ + le_bytes(x as nat, n as nat),
        decreases k,
    {
        let ghost before = out@;
        out.push((rest % 256) as u8);
        proof {
            assert(before + le_bytes(rest as nat, k as nat) =~= out@ + le_bytes(
                rest as nat / 256,
                (k - 1) as nat,
            ));
        }
        rest = rest / 256;
        k = k - 1;
    }
    assert(out@ =~= out@ + le_bytes(rest as nat, 0));
}

/// The number in the `n` bytes from `start` on, least significant byte first.
pub fn read_le(bytes: &[u8], start: usize, n: usize) -> (x: u64)
    requires
        n <= 8,
        start + n <= bytes@.len(),
    ensures
        x == le_value(bytes@.subrange(start as int, start + n)),
{
    let mut x: u64 = 0;
    let mut k: usize = n;
    let ghost field = bytes@.subrange(start as int, start + n);
    proof {
        assert(field.skip(n as int) =~= Seq::empty());
    }
    while k > 0
        invariant
            n <= 8,
            k <= n,
            start + n <= bytes.len(),
            field == bytes@.subrange(start as int, start + n),
            x == le_value(field.skip(k as int)),
        decreases k,
    {
        k = k - 1;
        proof {
            let tail = field.skip(k as int);
            assert(tail.skip(1) =~= field.skip(k + 1));
            assert(tail[0] == bytes@[start + k]);
            le_value_bound(tail);
            pow_256_values();
            lemma_pow_increases(256, tail.len(), 8);
        }
        x = 256 * x + bytes[start + k] as u64;
    }
    assert(field.skip(0) =~= field);
    x
}

/// The bytes of a run of 32-bit words, word after word.
pub open spec fn u32s_le(words: Seq<u32>) -> Seq<u8>
    decreases words.len(),
{
    if words.len() == 0 {
        Seq::empty()
    } else {
        u32s_le(words.drop_last()) + le_bytes(words.last() as nat, 4)
    }
}

/// The bytes of a run of 16-bit words, word after word.
pub open spec fn u16s_le(words: Seq<u16>) -> Seq<u8>
    decreases words.len(),
{
    if words.len() == 0 {
        Seq::empty()
    } else {
        u16s_le(words.drop_last()) + le_bytes(words.last() as nat, 2)
    }
}

/// The 32-bit words that a byte string holds. Bytes after the last whole word
/// are left out.
pub open spec fn u32s_of(bytes: Seq<u8>) -> Seq<u32> {
    Seq::new(
        bytes.len() / 4,
        |i: int| le_value(bytes.subrange(4 * i, 4 * i + 4)) as u32,
    )
}

/// A 32-bit word takes four bytes.
pub proof fn u32s_le_len(words: Seq<u32>)
    ensures
        u32s_le(words).len() == 4 * words.len(),
    decreases words.len(),
{
    if words.len() > 0 {
        u32s_le_len(words.drop_last());
        le_bytes_len(words.last() as nat, 4);
    }
}

/// A 16-bit word takes two bytes.
pub proof fn u16s_le_len(words: Seq<u16>)
    ensures
        u16s_le(words).len() == 2 * words.len(),
    decreases words.len(),
{
    if words.len() > 0 {
        u16s_le_len(words.drop_last());
        le_bytes_len(words.last() as nat, 2);
    }
}

/// The bytes of a part of a run of 32-bit words stand where the part stands.
pub proof fn u32s_le_of_part(words: Seq<u32>, i: int, j: int)
    requires
        0 <= i <= j <= words.len(),
    ensures
        u32s_le(words.subrange(i, j)) == u32s_le(words).subrange(4 * i, 4 * j),
    decreases words.len(),
{
    u32s_le_len(words);
    u32s_le_len(words.subrange(i, j));
    if i < j {
        let front = words.drop_last();
        u32s_le_len(front);
        le_bytes_len(words.last() as nat, 4);
        if j < words.len() {
            assert(words.subrange(i, j) =~= front.subrange(i, j));
            u32s_le_of_part(front, i, j);
        } else {
            assert(words.subrange(i, j).drop_last() =~= front.subrange(i, j - 1));
            u32s_le_of_part(front, i, j - 1);
        }
    }
    assert(u32s_le(words.subrange(i, j)) =~= u32s_le(words).subrange(4 * i, 4 * j));
}

/// The bytes of a part of a run of 16-bit words stand where the part stands.
pub proof fn u16s_le_of_part(words: Seq<u16>, i: int, j: int)
    requires
        0 <= i <= j <= words.len(),
    ensures
        u16s_le(words.subrange(i, j)) == u16s_le(words).subrange(2 * i, 2 * j),
    decreases words.len(),
{
    u16s_le_len(words);
    u16s_le_len(words.subrange(i, j));
    if i < j {
        let front = words.drop_last();
        u16s_le_len(front);
        le_bytes_len(words.last() as nat, 2);
        if j < words.len() {
            assert(words.subrange(i, j) =~= front.subrange(i, j));
            u16s_le_of_part(front, i, j);
        } else {
            assert(words.subrange(i, j).drop_last() =~= front.subrange(i, j - 1));
            u16s_le_of_part(front, i, j - 1);
        }
    }
    assert(u16s_le(words.subrange(i, j)) =~= u16s_le(words).subrange(2 * i, 2 * j));
}

/// The four bytes of word `i` stand at `4 i`, the least significant one first.
pub proof fn u32s_le_are_digits(words: Seq<u32>, i: int)
    requires
        0 <= i < words.len(),
    ensures
        u32s_le(words).len() == 4 * words.len(),
        u32s_le(words)[4 * i] == words[i] as int % 256,
        u32s_le(words)[4 * i + 1] == words[i] as int / 0x100 % 256,
        u32s_le(words)[4 * i + 2] == words[i] as int / 0x1_0000 % 256,
        u32s_le(words)[4 * i + 3] == words[i] as int / 0x100_0000 % 256,
{
    let x = words[i] as nat;
    u32s_le_len(words);
    u32s_le_of_part(words, i, i + 1);
    let part = words.subrange(i, i + 1);
    assert(part.drop_last() =~= Seq::empty());
    assert(u32s_le(Seq::empty()) =~= Seq::empty());
    assert(u32s_le(part) =~= le_bytes(x, 4));
    let bytes = u32s_le(words).subrange(4 * i, 4 * (i + 1));
    reveal_with_fuel(pow, 5);
    le_bytes_are_digits(x, 4, 0);
    le_bytes_are_digits(x, 4, 1);
    le_bytes_are_digits(x, 4, 2);
    le_bytes_are_digits(x, 4, 3);
    assert(bytes[0] == u32s_le(words)[4 * i]);
    assert(bytes[1] == u32s_le(words)[4 * i + 1]);
    assert(bytes[2] == u32s_le(words)[4 * i + 2]);
    assert(bytes[3] == u32s_le(words)[4 * i + 3]);
}

/// The two bytes of word `i` stand at `2 i`, the less significant one first.
pub proof fn u16s_le_are_digits(words: Seq<u16>, i: int)
    requires
        0 <= i < words.len(),
    ensures
        u16s_le(words).len() == 2 * words.len(),
        u16s_le(words)[2 * i] == words[i] as int % 256,
        u16s_le(words)[2 * i + 1] == words[i] as int / 0x100 % 256,
{
    let x = words[i] as nat;
    u16s_le_len(words);
    u16s_le_of_part(words, i, i + 1);
    let part = words.subrange(i, i + 1);
    assert(part.drop_last() =~= Seq::empty());
    assert(u16s_le(Seq::empty()) =~= Seq::empty());
    assert(u16s_le(part) =~= le_bytes(x, 2));
    let bytes = u16s_le(words).subrange(2 * i, 2 * (i + 1));
    reveal_with_fuel(pow, 3);
    le_bytes_are_digits(x, 2, 0);
    le_bytes_are_digits(x, 2, 1);
    assert(bytes[0] == u16s_le(words)[2 * i]);
    assert(bytes[1] == u16s_le(words)[2 * i + 1]);
}

/// A byte string holds a word for every four bytes.
pub proof fn u32s_of_len(bytes: Seq<u8>)
    ensures
        u32s_of(bytes).len() == bytes.len() as int / 4,
{
}

/// Word `i` of a byte string is made of the four bytes from `4 i` on, the least
/// significant one first.
pub proof fn u32s_of_bytes(bytes: Seq<u8>, i: int)
    requires
        0 <= i < bytes.len() as int / 4,
    ensures
        u32s_of(bytes).len() == bytes.len() as int / 4,
        u32s_of(bytes)[i] == bytes[4 * i] + 0x100 * bytes[4 * i + 1] + 0x1_0000 * bytes[4 * i + 2]
            + 0x100_0000 * bytes[4 * i + 3],
{
    le_value_of_few(bytes.subrange(4 * i, 4 * i + 4));
}

/// Reading back the bytes of a run of 32-bit words gives the words.
pub proof fn u32s_of_u32s_le(words: Seq<u32>)
    ensures
        u32s_of(u32s_le(words)) == words,
    decreases words.len(),
{
    u32s_le_len(words);
    let all = u32s_le(words);
    if words.len() > 0 {
        let front = words.drop_last();
        u32s_le_len(front);
        u32s_of_u32s_le(front);
        le_bytes_len(words.last() as nat, 4);
        assert forall|i: int| 0 <= i < words.len() implies u32s_of(all)[i] == words[i] by {
            if i < front.len() {
                assert(all.subrange(4 * i, 4 * i + 4) =~= u32s_le(front).subrange(
                    4 * i,
                    4 * i + 4,
                ));
                assert(u32s_of(u32s_le(front))[i] == front[i]);
            } else {
                assert(all.subrange(4 * i, 4 * i + 4) =~= le_bytes(words.last() as nat, 4));
                pow_256_values();
                le_value_of_le_bytes(words.last() as nat, 4);
            }
        }
    }
    assert(u32s_of(all) =~= words);
}

/// Appends the bytes of a run of 32-bit words.
pub fn push_u32s(out: &mut Vec<u8>, words: &[u32])
    ensures
        final(out)@ == old(out)@ + u32s_le(words@),
{
    let mut i: usize = 0;
    assert(words@.take(0) =~= Seq::empty());
    assert(out@ =~= old(out)@ + u32s_le(words@.take(0)));
    while i < words.len()
        invariant
            i <= words@.len(),
            out@ == old(out)@ + u32s_le(words@.take(i as int)),
        decreases words@.len() - i,
    {
        push_le(out, words[i] as u64, 4);
        proof {
            let next = words@.take(i + 1);
            assert(next.drop_last() =~= words@.take(i as int));
            assert(out@ =~= old(out)@ + u32s_le(next));
        }
        i = i + 1;
    }
    assert(words@.take(i as int) =~= words@);
}

/// Appends the bytes of a run of 16-bit words.
pub fn push_u16s(out: &mut Vec<u8>, words: &[u16])
    ensures
        final(out)@ == old(out)@ + u16s_le(words@),
{
    let mut i: usize = 0;
    assert(words@.take(0) =~= Seq::empty());
    assert(out@ =~= old(out)@ + u16s_le(words@.take(0)));
    while i < words.len()
        invariant
            i <= words@.len(),
            out@ == old(out)@ + u16s_le(words@.take(i as int)),
        decreases words@.len() - i,
    {
        push_le(out, words[i] as u64, 2);
        proof {
            let next = words@.take(i + 1);
            assert(next.drop_last() =~= words@.take(i as int));
            assert(out@ =~= old(out)@ + u16s_le(next));
        }
        i = i + 1;
    }
    assert(words@.take(i as int) =~= words@);
}

/// The 32-bit words that `bytes` holds, as the bit patterns of single-precision
/// numbers. Bytes after the last whole word are left out.
pub fn f32_vec_from_le_bytes(bytes: &[u8]) -> (words: Vec<u32>)
    ensures
        words@ == u32s_of(bytes@),
{
    let mut words: Vec<u32> = Vec::new();
    let n: usize = bytes.len() / 4;
    let mut i: usize = 0;
    while i < n
        invariant
            i <= n,
            n == bytes.len() / 4,
            words@ == u32s_of(bytes@).take(i as int),
        decreases n - i,
    {
        let x: u64 = read_le(bytes, 4 * i, 4);
        proof {
            let field = bytes@.subrange(4 * i, 4 * i + 4);
            le_value_bound(field);
            pow_256_values();
        }
        words.push(x as u32);
        assert(words@ =~= u32s_of(bytes@).take(i + 1));
        i = i + 1;
    }
    assert(u32s_of(bytes@).take(n as int) =~= u32s_of(bytes@));
    words
}

} // verus!
