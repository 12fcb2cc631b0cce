//! The cache file of a land raster: a header of magic number, version and word count,
//! then the words, all little-endian.
use vstd::prelude::*;

verus! {

/// "SEA_RAST".
pub const RASTER_MAGIC: u64 = 0x5345_415F_5241_5354;

pub const RASTER_VERSION: u32 = 3;

/// Why a cache file is not taken.
#[derive(Clone, Copy, PartialEq, Eq, Structural, Debug)]
pub enum CacheError {
    TooSmall,
    MagicMismatch,
    VersionMismatch,
    SizeMismatch,
}

/// The lowest `n` bytes of `x`, lowest first.
pub open spec fn le_bytes(x: nat, n: nat) -> Seq<u8>
    decreases n,
{
    if n == 0 {
        Seq::empty()
    } else {
        seq![(x % 256) as u8] + le_bytes(x / 256, (n - 1) as nat)
    }
}

/// The number that bytes, lowest first, stand for.
pub open spec fn le_value(s: Seq<u8>) -> nat
    decreases s.len(),
{
    if s.len() == 0 {
        0
    } else {
        s[0] as nat + 256 * le_value(s.drop_first())
    }
}

pub open spec fn power_256(n: nat) -> nat
    decreases n,
{
    if n == 0 {
        1
    } else {
        256 * power_256((n - 1) as nat)
    }
}

/// The bytes of all words.
pub open spec fn word_bytes(words: Seq<u64>) -> Seq<u8>
    decreases words.len(),
{
    if words.len() == 0 {
        Seq::empty()
    } else {
        word_bytes(words.drop_last()) + le_bytes(words.last() as nat, 8)
    }
}

/// The cache file of a raster. The count field holds the low 32 bits of the word count.
pub open spec fn cache_bytes(words: Seq<u64>) -> Seq<u8> {
    le_bytes(RASTER_MAGIC as nat, 8) + le_bytes(RASTER_VERSION as nat, 4) + le_bytes(
        words.len() % 0x1_0000_0000,
        4,
    ) + word_bytes(words)
}

/// What a cache file holds, or the first reason not to take it.
pub open spec fn cache_content(buf: Seq<u8>) -> Result<Seq<u64>, CacheError> {
    if buf.len() < 16 {
        Err(CacheError::TooSmall)
    } else if le_value(buf.subrange(0, 8)) != RASTER_MAGIC {
        Err(CacheError::MagicMismatch)
    } else if le_value(buf.subrange(8, 12)) != RASTER_VERSION {
        Err(CacheError::VersionMismatch)
    } else if buf.len() != 16 + 8 * le_value(buf.subrange(12, 16)) {
        Err(CacheError::SizeMismatch)
    } else {
        Ok(
            Seq::new(
                le_value(buf.subrange(12, 16)),
                |i: int| le_value(buf.subrange(16 + 8 * i, 24 + 8 * i)) as u64,
            ),
        )
    }
}

proof fn lemma_le_bytes(x: nat, n: nat)
    ensures
        le_bytes(x, n).len() == n,
        x < power_256(n) ==> le_value(le_bytes(x, n)) == x,
    decreases n,
{
    if n > 0 {
        lemma_le_bytes(x / 256, (n - 1) as nat);
        assert(le_bytes(x, n).drop_first() =~= le_bytes(x / 256, (n - 1) as nat));
    }
}

proof fn lemma_le_value_bound(s: Seq<u8>)
    ensures
        le_value(s) < power_256(s.len()),
    decreases s.len(),
{
    if s.len() > 0 {
        lemma_le_value_bound(s.drop_first());
    }
}

proof fn lemma_powers()
    ensures
        power_256(4) == 0x1_0000_0000,
        power_256(8) == 0x1_0000_0000_0000_0000,
{
    reveal_with_fuel(power_256, 9);
}

proof fn lemma_word_bytes(words: Seq<u64>, i: int)
    requires
        0 <= i < words.len(),
    ensures
        word_bytes(words).len() == 8 * words.len(),
        word_bytes(words).subrange(8 * i, 8 * i + 8) == le_bytes(words[i] as nat, 8),
    decreases words.len(),
{
    lemma_le_bytes(words.last() as nat, 8);
    lemma_word_bytes_len(words.drop_last());
    if i < words.len() - 1 {
        lemma_word_bytes(words.drop_last(), i);
        assert(word_bytes(words).subrange(8 * i, 8 * i + 8) =~= word_bytes(
            words.drop_last(),
        ).subrange(8 * i, 8 * i + 8));
    } else {
        assert(word_bytes(words).subrange(8 * i, 8 * i + 8) =~= le_bytes(words.last() as nat, 8));
    }
}

proof fn lemma_word_bytes_len(words: Seq<u64>)
    ensures
        word_bytes(words).len() == 8 * words.len(),
    decreases words.len(),
{
    if words.len() > 0 {
        lemma_word_bytes_len(words.drop_last());
        lemma_le_bytes(words.last() as nat, 8);
    }
}

/// Reading a cache file gives back the raster that was written, as long as its word
/// count fits the header's field.
pub proof fn lemma_cache_round_trip(words: Seq<u64>)
    requires
        words.len() < 0x1_0000_0000,
    ensures
        cache_content(cache_bytes(words)) == Ok::<Seq<u64>, CacheError>(words),
{
    let buf = cache_bytes(words);
    lemma_powers();
    lemma_le_bytes(RASTER_MAGIC as nat, 8);
    lemma_le_bytes(RASTER_VERSION as nat, 4);
    lemma_le_bytes(words.len(), 4);
    lemma_word_bytes_len(words);
    assert(words.len() % 0x1_0000_0000 == words.len());
    assert(buf.subrange(0, 8) =~= le_bytes(RASTER_MAGIC as nat, 8));
    assert(buf.subrange(8, 12) =~= le_bytes(RASTER_VERSION as nat, 4));
    assert(buf.subrange(12, 16) =~= le_bytes(words.len(), 4));
    let got = Seq::new(
        words.len(),
        |i: int| le_value(buf.subrange(16 + 8 * i, 24 + 8 * i)) as u64,
    );
    assert forall|i: int| 0 <= i < words.len() implies got[i] == words[i] by {
        lemma_word_bytes(words, i);
        lemma_le_bytes(words[i] as nat, 8);
        assert(buf.subrange(16 + 8 * i, 24 + 8 * i) =~= word_bytes(words).subrange(
            8 * i,
            8 * i + 8,
        ));
    }
    assert(got =~= words);
}

fn push_le(out: &mut Vec<u8>, x: u64, n: usize)
    requires
        n <= 8,
    ensures
        final(out)@ == old(out)@ + le_bytes(x as nat, n as nat),
{
    let mut rest: u64 = x;
    let mut k: usize = 0;
    let ghost before = out@;
    while k < n
        invariant
            k <= n,
            out@ + le_bytes(rest as nat, (n - k) as nat) =~= before + le_bytes(x as nat, n as nat),
        decreases n - k,
    {
        out.push((rest % 256) as u8);
        rest = rest / 256;
        k = k + 1;
    }
}

fn read_le(buf: &Vec<u8>, from: usize, to: usize) -> (x: u64)
    requires
        from <= to <= buf.len(),
        to - from <= 8,
    ensures
        x == le_value(buf@.subrange(from as int, to as int)),
{
    let mut x: u64 = 0;
    let mut k: usize = to;
    proof {
        lemma_powers();
    }
    while k > from
        invariant
            from <= k <= to <= buf.len(),
            to - from <= 8,
            x == le_value(buf@.subrange(k as int, to as int)),
        decreases k - from,
    {
        let ghost tail = buf@.subrange(k as int, to as int);
        k = k - 1;
        proof {
            let longer = buf@.subrange(k as int, to as int);
            assert(longer.drop_first() =~= tail);
            assert(longer[0] == buf@[k as int]);
            lemma_le_value_bound(longer);
            lemma_power_grows(longer.len(), 8);
            lemma_powers();
        }
        x = (buf[k] as u64) + 256 * x;
    }
    x
}

proof fn lemma_power_grows(a: nat, b: nat)
    requires
        a <= b,
    ensures
        power_256(a) <= power_256(b),
    decreases b - a,
{
    if a < b {
        lemma_power_grows(a + 1, b);
    }
}

/// The cache file of a raster.
pub fn save_raster_cache(words: &Vec<u64>) -> (buf: Vec<u8>)
    ensures
        buf@ == cache_bytes(words@),
{
    let mut buf: Vec<u8> = Vec::new();
    push_le(&mut buf, RASTER_MAGIC, 8);
    push_le(&mut buf, RASTER_VERSION as u64, 4);
    push_le(&mut buf, (words.len() as u64) % 0x1_0000_0000, 4);
    let ghost header = buf@;
    let mut i: usize = 0;
    assert(words@.take(0) =~= Seq::<u64>::empty());
    while i < words.len()
        invariant
            i <= words.len(),
            buf@ =~= header + word_bytes(words@.take(i as int)),
        decreases words.len() - i,
    {
        push_le(&mut buf, words[i], 8);
        assert(words@.take(i + 1).drop_last() =~= words@.take(i as int));
        i = i + 1;
    }
    assert(words@.take(words.len() as int) =~= words@);
    buf
}

/// The raster in a cache file.
pub fn load_raster_cache(buf: &Vec<u8>) -> (r: Result<Vec<u64>, CacheError>)
    ensures
        match r {
            Ok(words) => cache_content(buf@) == Ok::<Seq<u64>, CacheError>(words@),
            Err(e) => cache_content(buf@) == Err::<Seq<u64>, CacheError>(e),
        },
{
    if buf.len() < 16 {
        return Err(CacheError::TooSmall);
    }
    if read_le(buf, 0, 8) != RASTER_MAGIC {
        return Err(CacheError::MagicMismatch);
    }
    if read_le(buf, 8, 12) != RASTER_VERSION as u64 {
        return Err(CacheError::VersionMismatch);
    }
    let count = read_le(buf, 12, 16);
    proof {
        lemma_powers();
        lemma_le_value_bound(buf@.subrange(12, 16));
    }
    if buf.len() as u64 != 16 + 8 * count {
        return Err(CacheError::SizeMismatch);
    }
    let n: usize = (buf.len() - 16) / 8;
    let mut words: Vec<u64> = Vec::new();
    let mut i: usize = 0;
    while i < n
        invariant
            i <= n,
            buf.len() == 16 + 8 * n,
            words.len() == i,
            forall|k: int|
                0 <= k < i ==> #[trigger] words@[k] == le_value(
                    buf@.subrange(16 + 8 * k, 24 + 8 * k),
                ),
        decreases n - i,
    {
        words.push(read_le(buf, 16 + 8 * i, 24 + 8 * i));
        i = i + 1;
    }
    proof {
        assert(words@ =~= Seq::new(
            n as nat,
            |k: int| le_value(buf@.subrange(16 + 8 * k, 24 + 8 * k)) as u64,
        ));
    }
    Ok(words)
}

/// A cache file is taken only if it is one that was written: its length fits the words it holds, and it
/// starts with the mark of a raster, the version and the number of the words.
pub proof fn lemma_only_own_files_are_taken(buf: Seq<u8>, words: Seq<u64>)
    requires
        cache_content(buf) == Ok::<Seq<u64>, CacheError>(words),
    ensures
        buf.len() == 16 + 8 * words.len(),
        le_value(buf.subrange(0, 8)) == 0x5345_415F_5241_5354,
        le_value(buf.subrange(8, 12)) == 3,
        le_value(buf.subrange(12, 16)) == words.len(),
        forall|i: int|
            0 <= i < words.len() ==> (#[trigger] words[i]) as nat == le_value(
                buf.subrange(16 + 8 * i, 24 + 8 * i),
            ),
{
    assert forall|i: int| 0 <= i < words.len() implies (#[trigger] words[i]) as nat == le_value(
        buf.subrange(16 + 8 * i, 24 + 8 * i),
    ) by {
        lemma_le_value_bound(buf.subrange(16 + 8 * i, 24 + 8 * i));
        lemma_powers();
    }
}

/// Numbers are written lowest byte first: one more byte in front makes the rest count 256 times as much.
pub proof fn lemma_lowest_byte_first(first: u8, rest: Seq<u8>)
    ensures
        le_value(seq![first] + rest) == first + 256 * le_value(rest),
        le_value(seq![first]) == first,
{
    let all = seq![first] + rest;
    assert(all.drop_first() =~= rest);
    assert(seq![first].drop_first() =~= Seq::<u8>::empty());
    assert(le_value(seq![first].drop_first()) == 0);
}

} // verus!
