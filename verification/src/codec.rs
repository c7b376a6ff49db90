//! Platform-width integers as bytes, in both byte orders.

use vstd::prelude::*;

verus! {

/// Two hundred and fifty-six to the power `n`.
pub open spec fn pow256(n: nat) -> nat
    decreases n,
{
    if n == 0 {
        1
    } else {
        256 * pow256((n - 1) as nat)
    }
}

/// The number of bytes of a platform-width unsigned integer.
pub open spec fn word_width() -> nat {
    (usize::BITS / 8) as nat
}

/// The `width` low bytes of `x`, least significant first.
pub open spec fn le_bytes(x: nat, width: nat) -> Seq<u8>
    decreases width,
{
    if width == 0 {
        Seq::empty()
    } else {
        seq![(x % 256) as u8] + le_bytes(x / 256, (width - 1) as nat)
    }
}

/// The number that bytes stand for, least significant first.
pub open spec fn le_value(s: Seq<u8>) -> nat
    decreases s.len(),
{
    if s.len() == 0 {
        0
    } else {
        s[0] as nat + 256 * le_value(s.skip(1))
    }
}

/// The `width` low bytes of `x`, most significant first.
pub open spec fn be_bytes(x: nat, width: nat) -> Seq<u8> {
    le_bytes(x, width).reverse()
}

/// The number that bytes stand for, most significant first.
pub open spec fn be_value(s: Seq<u8>) -> nat {
    le_value(s.reverse())
}

/// The platform word has four or eight bytes and holds exactly the numbers
/// below `pow256` of its width.
pub proof fn lemma_word_width()
    ensures
        word_width() == 4 || word_width() == 8,
        pow256(word_width()) == usize::MAX + 1,
{
    reveal_with_fuel(pow256, 9);
    assert(usize::BITS == 32 || usize::BITS == 64);
    if usize::BITS == 32 {
        assert(usize::MAX == 0xffff_ffff);
        assert(pow256(4) == 0x1_0000_0000);
    } else {
        assert(usize::MAX == 0xffff_ffff_ffff_ffff);
        assert(pow256(8) == 0x1_0000_0000_0000_0000);
    }
}

/// `le_bytes` gives as many bytes as asked for.
pub proof fn lemma_le_bytes_len(x: nat, width: nat)
    ensures
        le_bytes(x, width).len() == width,
    decreases width,
{
    if width > 0 {
        lemma_le_bytes_len(x / 256, (width - 1) as nat);
    }
}

/// Bytes stand for a number below `pow256` of their count.
pub proof fn lemma_le_value_bound(s: Seq<u8>)
    ensures
        le_value(s) < pow256(s.len()),
    decreases s.len(),
{
    if s.len() > 0 {
        lemma_le_value_bound(s.skip(1));
    }
}

/// Reading the bytes of a number that fits gives the number back.
pub proof fn lemma_le_value_of_bytes(x: nat, width: nat)
    requires
        x < pow256(width),
    ensures
        le_value(le_bytes(x, width)) == x,
    decreases width,
{
    if width > 0 {
        let rest = le_bytes(x / 256, (width - 1) as nat);
        lemma_le_value_of_bytes(x / 256, (width - 1) as nat);
        assert(le_bytes(x, width).skip(1) =~= rest);
    }
}

/// Writing the number that bytes stand for, at their count, gives the bytes
/// back.
pub proof fn lemma_le_bytes_of_value(s: Seq<u8>)
    ensures
        le_bytes(le_value(s), s.len()) == s,
    decreases s.len(),
{
    if s.len() > 0 {
        lemma_le_bytes_of_value(s.skip(1));
        let v = le_value(s);
        let r = le_value(s.skip(1));
        assert(v % 256 == s[0] as nat);
        assert(v / 256 == r);
        assert(le_bytes(v, s.len()) =~= s);
    } else {
        assert(le_bytes(le_value(s), s.len()) =~= s);
    }
}

/// Both byte orders read back what they wrote, for a number that fits.
pub proof fn lemma_be_value_of_bytes(x: nat, width: nat)
    requires
        x < pow256(width),
    ensures
        be_bytes(x, width).len() == width,
        be_value(be_bytes(x, width)) == x,
{
    lemma_le_bytes_len(x, width);
    lemma_le_value_of_bytes(x, width);
    assert(le_bytes(x, width).reverse().reverse() =~= le_bytes(x, width));
}

/// The number of bytes of a platform-width unsigned integer.
pub fn usize_width() -> (w: usize)
    ensures
        w == word_width(),
        w == 4 || w == 8,
{
    proof {
        lemma_word_width();
    }
    (usize::BITS / 8) as usize
}

/// Appends the bytes of `x` to `out`, least significant first.
pub fn push_usize_le(out: &mut Vec<u8>, x: usize)
    ensures
        final(out)@ == old(out)@ + le_bytes(x as nat, word_width()),
{
    let width: usize = usize_width();
    let mut rest: usize = x;
    let mut i: usize = 0;
    while i < width
        invariant
            i <= width,
            width == word_width(),
            old(out)@ + le_bytes(x as nat, word_width()) == out@ + le_bytes(
                rest as nat,
                (width - i) as nat,
            ),
        decreases width - i,
    {
        let ghost before = out@;
        out.push((rest % 256) as u8);
        proof {
            let tail = le_bytes((rest / 256) as nat, (width - i - 1) as nat);
            assert(le_bytes(rest as nat, (width - i) as nat) == seq![(rest % 256) as u8] + tail);
            assert(before + (seq![(rest % 256) as u8] + tail) =~= out@ + tail);
        }
        rest = rest / 256;
        i = i + 1;
    }
    assert(out@ + le_bytes(rest as nat, 0) =~= out@);
}

/// Reads the platform-width integer whose bytes start at `pos`, least
/// significant first.
pub fn read_usize_le(buf: &[u8], pos: usize) -> (x: usize)
    requires
        pos + word_width() <= buf@.len(),
    ensures
        x == le_value(buf@.subrange(pos as int, pos + word_width())),
{
    let width: usize = usize_width();
    let len: usize = buf.len();
    let ghost s = buf@.subrange(pos as int, pos + word_width());
    let mut acc: usize = 0;
    let mut i: usize = width;
    proof {
        assert(s.skip(width as int) =~= Seq::<u8>::empty());
    }
    while i > 0
        invariant
            i <= width,
            width == word_width(),
            pos + width <= len,
            len == buf@.len(),
            s == buf@.subrange(pos as int, pos + width),
            acc == le_value(s.skip(i as int)),
        decreases i,
    {
        i = i - 1;
        proof {
            let t = s.skip(i as int);
            assert(t.skip(1) =~= s.skip(i + 1));
            assert(t[0] == buf@[pos + i]);
            lemma_le_value_bound(t);
            lemma_pow256_grows(t.len(), width as nat);
            lemma_word_width();
        }
        acc = acc * 256 + buf[pos + i] as usize;
    }
    assert(s.skip(0) =~= s);
    acc
}

/// `pow256` does not decrease.
pub proof fn lemma_pow256_grows(a: nat, b: nat)
    requires
        a <= b,
    ensures
        pow256(a) <= pow256(b),
        pow256(a) >= 1,
    decreases b,
{
    if a < b {
        lemma_pow256_grows(a, (b - 1) as nat);
    } else if a > 0 {
        lemma_pow256_grows((a - 1) as nat, (a - 1) as nat);
    }
}

/// Appends the bytes of `x` to `out`, most significant first.
pub fn push_usize_be(out: &mut Vec<u8>, x: usize)
    ensures
        final(out)@ == old(out)@ + be_bytes(x as nat, word_width()),
{
    let width: usize = usize_width();
    let mut low_first: Vec<u8> = Vec::new();
    push_usize_le(&mut low_first, x);
    proof {
        lemma_le_bytes_len(x as nat, word_width());
        assert(low_first@ =~= le_bytes(x as nat, word_width()));
    }
    let mut i: usize = 0;
    while i < width
        invariant
            i <= width,
            width == word_width(),
            low_first@ == le_bytes(x as nat, word_width()),
            low_first@.len() == width,
            out@ == old(out)@ + low_first@.reverse().take(i as int),
        decreases width - i,
    {
        out.push(low_first[width - 1 - i]);
        i = i + 1;
        assert(out@ =~= old(out)@ + low_first@.reverse().take(i as int));
    }
    assert(low_first@.reverse().take(width as int) =~= low_first@.reverse());
}

/// Reads the platform-width integer whose bytes start at `pos`, most
/// significant first.
pub fn read_usize_be(buf: &[u8], pos: usize) -> (x: usize)
    requires
        pos + word_width() <= buf@.len(),
    ensures
        x == be_value(buf@.subrange(pos as int, pos + word_width())),
{
    let width: usize = usize_width();
    let len: usize = buf.len();
    let ghost s = buf@.subrange(pos as int, pos + word_width());
    let mut acc: usize = 0;
    let mut i: usize = 0;
    proof {
        assert(s.take(0).reverse() =~= Seq::<u8>::empty());
    }
    while i < width
        invariant
            i <= width,
            width == word_width(),
            pos + width <= len,
            len == buf@.len(),
            s == buf@.subrange(pos as int, pos + width),
            acc == le_value(s.take(i as int).reverse()),
        decreases width - i,
    {
        proof {
            let t = s.take(i + 1).reverse();
            assert(t.skip(1) =~= s.take(i as int).reverse());
            assert(t[0] == buf@[pos + i]);
            lemma_le_value_bound(t);
            lemma_pow256_grows(t.len(), width as nat);
            lemma_word_width();
        }
        acc = acc * 256 + buf[pos + i] as usize;
        i = i + 1;
    }
    assert(s.take(width as int) =~= s);
    acc
}

} // verus!
