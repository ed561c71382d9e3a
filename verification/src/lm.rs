//! The tiny decoder-only GPT as data: its random generator, its weight file, its vocabulary and the
//! key/value cache. Weights are IEEE single-precision bit patterns, one `u32` each.

use vstd::prelude::*;
use vstd::string::*;
use vstd::utf8::*;

use crate::text::decimal;

verus! {

/// Linear congruential generator.
#[derive(Clone, Debug)]
pub struct Lcg(u64);

impl View for Lcg {
    type V = u64;

    closed spec fn view(&self) -> u64 {
        self.0
    }
}

/// The state behind `state`: `6364136223846793005 * state + 1` modulo 2^64.
pub open spec fn lcg_next(state: u64) -> u64 {
    ((6364136223846793005 * state + 1) % 0x1_0000_0000_0000_0000) as u64
}

/// The first state for a seed: the seed made odd.
pub open spec fn seeded(seed: u64) -> u64 {
    if seed % 2 == 0 {
        (seed + 1) as u64
    } else {
        seed
    }
}

impl Lcg {
    /// A generator whose state is `seed` made odd.
    pub fn new(seed: u64) -> (r: Self)
        ensures
            r@ == seeded(seed),
    {
        assert(seed | 1 == seeded(seed)) by (bit_vector);
        Self(seed | 1)
    }

    /// Moves on and hands out the new state.
    pub fn next_u64(&mut self) -> (r: u64)
        ensures
            final(self)@ == lcg_next(old(self)@),
            r == final(self)@,
    {
        let ghost x = self.0 as int;
        proof {
            let m = 0x1_0000_0000_0000_0000int;
            vstd::arithmetic::div_mod::lemma_add_mod_noop(6364136223846793005 * x, 1, m);
            vstd::arithmetic::div_mod::lemma_small_mod(1, m as nat);
            vstd::arithmetic::mul::lemma_mul_is_commutative(6364136223846793005, x);
            assert(((6364136223846793005 * x) % m + 1) % m == (6364136223846793005 * x + 1) % m);
        }
        self.0 = self.0.wrapping_mul(6364136223846793005).wrapping_add(1);
        self.0
    }

    /// Moves on and hands out the upper 53 bits of the new state: the numerator of a uniform
    /// fraction of 2^53.
    pub fn next_fraction(&mut self) -> (r: u64)
        ensures
            final(self)@ == lcg_next(old(self)@),
            r == final(self)@ as int / 2048,
            r < 0x20_0000_0000_0000,
    {
        let x = self.next_u64();
        assert(x >> 11 == x / 2048 && x >> 11 < 0x20_0000_0000_0000) by (bit_vector);
        x >> 11
    }
}

/// The sizes of a model.
#[derive(Clone, Debug)]
pub struct Config {
    pub vocab_size: usize,
    pub d_model: usize,
    pub n_heads: usize,
    pub n_layers: usize,
    pub d_ff: usize,
    pub max_len: usize,
}

/// A linear layer; `weight` holds `out_f` rows of `in_f` words.
#[derive(Clone, Debug)]
pub struct Linear {
    pub weight: Vec<u32>,
    pub bias: Vec<u32>,
    pub in_f: usize,
    pub out_f: usize,
}

#[derive(Clone, Debug)]
pub struct LayerNorm {
    pub weight: Vec<u32>,
    pub bias: Vec<u32>,
}

#[derive(Clone, Debug)]
pub struct Block {
    pub ln1: LayerNorm,
    pub wq: Linear,
    pub wk: Linear,
    pub wv: Linear,
    pub wo: Linear,
    pub ln2: LayerNorm,
    pub fc: Linear,
    pub proj: Linear,
}

#[derive(Clone, Debug)]
pub struct LanguageModel {
    pub config: Config,
    pub vocab: Vec<u8>,
    pub tok: Vec<u32>,
    pub pos: Vec<u32>,
    pub blocks: Vec<Block>,
    pub ln_f: LayerNorm,
}

/// The little-endian number in the four bytes at `i`.
pub open spec fn le32(s: Seq<u8>, i: int) -> nat {
    (s[i] + 0x100 * s[i + 1] + 0x1_0000 * s[i + 2] + 0x100_0000 * s[i + 3]) as nat
}

/// `n` words from `i` on.
pub open spec fn words(s: Seq<u8>, i: int, n: nat) -> Seq<u32> {
    Seq::new(n, |k: int| le32(s, i + 4 * k) as u32)
}

/// The sizes in the header of a weight file.
pub struct Header {
    pub vocab_size: nat,
    pub d_model: nat,
    pub n_heads: nat,
    pub n_layers: nat,
    pub d_ff: nat,
    pub max_len: nat,
}

/// Magic and version take eight bytes; six sizes follow.
pub open spec fn header(s: Seq<u8>) -> Header {
    Header {
        vocab_size: le32(s, 8),
        d_model: le32(s, 12),
        n_heads: le32(s, 16),
        n_layers: le32(s, 20),
        d_ff: le32(s, 24),
        max_len: le32(s, 28),
    }
}

/// The bytes of a linear layer.
pub open spec fn linear_size(in_f: nat, out_f: nat) -> nat {
    4 * (out_f * in_f) + 4 * out_f
}

/// The bytes of a block of width `d` with `f` features in its hidden layer.
pub open spec fn block_size(d: nat, f: nat) -> nat {
    16 * d + 4 * linear_size(d, d) + linear_size(d, f) + linear_size(f, d)
}

impl Header {
    /// Where the words of the token embedding start: behind the vocabulary.
    pub open spec fn tok_at(self) -> nat {
        36 + self.vocab_size
    }

    pub open spec fn pos_at(self) -> nat {
        self.tok_at() + 4 * (self.vocab_size * self.d_model)
    }

    pub open spec fn blocks_at(self) -> nat {
        self.pos_at() + 4 * (self.max_len * self.d_model)
    }

    pub open spec fn block_size(self) -> nat {
        block_size(self.d_model, self.d_ff)
    }

    pub open spec fn ln_f_at(self) -> nat {
        self.blocks_at() + self.n_layers * self.block_size()
    }

    /// The bytes of the whole file.
    pub open spec fn size(self) -> nat {
        self.ln_f_at() + 8 * self.d_model
    }
}

/// Why a weight file cannot be used, if it cannot.
pub open spec fn file_error(s: Seq<u8>) -> Option<Seq<char>> {
    let h = header(s);
    if s.len() < 4 {
        Some("truncated weight file"@)
    } else if s.take(4) != "TGPT".spec_bytes() {
        Some("bad magic"@)
    } else if s.len() < 8 {
        Some("truncated weight file"@)
    } else if le32(s, 4) != 1 {
        Some("unsupported version "@ + crate::text::decimal_text(le32(s, 4)))
    } else if s.len() < 32 {
        Some("truncated weight file"@)
    } else if h.n_heads == 0 || h.d_model % h.n_heads != 0 {
        Some("d_model not divisible by n_heads"@)
    } else if s.len() < 36 {
        Some("truncated weight file"@)
    } else if le32(s, 32) != h.vocab_size {
        Some("vocab length mismatch"@)
    } else if s.len() < h.size() {
        Some("truncated weight file"@)
    } else if s.len() > h.size() {
        Some(
            "trailing "@ + crate::text::decimal_text((s.len() - h.size()) as nat)
                + " bytes in weight file"@,
        )
    } else {
        None
    }
}

impl LayerNorm {
    /// Is this the layer in the file `s` at `i`, over `d` features?
    pub open spec fn is_at(self, s: Seq<u8>, i: int, d: nat) -> bool {
        &&& self.weight@ == words(s, i, d)
        &&& self.bias@ == words(s, i + 4 * d, d)
    }
}

impl Linear {
    /// Is this the layer in the file `s` at `i`?
    pub open spec fn is_at(self, s: Seq<u8>, i: int, in_f: nat, out_f: nat) -> bool {
        &&& self.in_f == in_f
        &&& self.out_f == out_f
        &&& self.weight@ == words(s, i, out_f * in_f)
        &&& self.bias@ == words(s, i + 4 * (out_f * in_f), out_f)
    }
}

impl Block {
    /// Is this the block in the file `s` at `i`?
    pub open spec fn is_at(self, s: Seq<u8>, i: int, d: nat, f: nat) -> bool {
        let one = linear_size(d, d);
        &&& self.ln1.is_at(s, i, d)
        &&& self.wq.is_at(s, i + 8 * d, d, d)
        &&& self.wk.is_at(s, i + 8 * d + one, d, d)
        &&& self.wv.is_at(s, i + 8 * d + 2 * one, d, d)
        &&& self.wo.is_at(s, i + 8 * d + 3 * one, d, d)
        &&& self.ln2.is_at(s, i + 8 * d + 4 * one, d)
        &&& self.fc.is_at(s, i + 16 * d + 4 * one, d, f)
        &&& self.proj.is_at(s, i + 16 * d + 4 * one + linear_size(d, f), f, d)
    }
}

impl LanguageModel {
    /// Is this the model in the file `s`?
    pub open spec fn is_file(self, s: Seq<u8>) -> bool {
        let h = header(s);
        &&& self.config.vocab_size == h.vocab_size
        &&& self.config.d_model == h.d_model
        &&& self.config.n_heads == h.n_heads
        &&& self.config.n_layers == h.n_layers
        &&& self.config.d_ff == h.d_ff
        &&& self.config.max_len == h.max_len
        &&& self.vocab@ == s.subrange(36, h.tok_at() as int)
        &&& self.tok@ == words(s, h.tok_at() as int, h.vocab_size * h.d_model)
        &&& self.pos@ == words(s, h.pos_at() as int, h.max_len * h.d_model)
        &&& self.blocks@.len() == h.n_layers
        &&& forall|l: int|
            0 <= l < h.n_layers ==> (#[trigger] self.blocks@[l]).is_at(
                s,
                h.blocks_at() + l * h.block_size(),
                h.d_model,
                h.d_ff,
            )
        &&& self.ln_f.is_at(s, h.ln_f_at() as int, h.d_model)
    }
}

/// A position in a weight file.
struct Cursor<'a> {
    data: &'a [u8],
    i: usize,
}

/// What reading `n` bytes does to a cursor that was at `i`.
spec fn advanced<T>(r: Result<T, String>, before: Cursor<'_>, after: Cursor<'_>, n: nat) -> bool {
    &&& after.wf()
    &&& after.data == before.data
    &&& match r {
        Ok(_) => before.i + n <= before.data@.len() && after.i == before.i + n,
        Err(m) => before.i + n > before.data@.len() && m@ == "truncated weight file"@,
    }
}

/// Where a cursor stops that cannot read all of two parts, the first of which takes `n` bytes: behind
/// that one, if it is there.
spec fn stopped(before: Cursor<'_>, n: nat) -> int {
    if before.i + n <= before.data@.len() {
        before.i + n
    } else {
        before.i as int
    }
}

impl<'a> Cursor<'a> {
    spec fn wf(&self) -> bool {
        self.i <= self.data@.len() <= usize::MAX
    }

    fn new(data: &'a [u8]) -> (r: Self)
        ensures
            r.wf(),
            r.data == data,
            r.i == 0,
    {
        assert(data@.len() == data.len());
        Self { data, i: 0 }
    }

    fn take(&mut self, n: usize) -> (r: Result<&'a [u8], String>)
        requires
            old(self).wf(),
        ensures
            advanced(r, *old(self), *final(self), n as nat),
            r matches Ok(bytes) ==> bytes@ == old(self).data@.subrange(
                old(self).i as int,
                old(self).i + n,
            ),
            r is Err ==> final(self).i == old(self).i,
    {
        if n > self.data.len() - self.i {
            return Err("truncated weight file".to_string());
        }
        let bytes = vstd::slice::slice_subrange(self.data, self.i, self.i + n);
        self.i += n;
        Ok(bytes)
    }

    fn u32(&mut self) -> (r: Result<u32, String>)
        requires
            old(self).wf(),
        ensures
            advanced(r, *old(self), *final(self), 4),
            r matches Ok(x) ==> x == le32(old(self).data@, old(self).i as int),
            r is Err ==> final(self).i == old(self).i,
    {
        let b = self.take(4)?;
        Ok(b[0] as u32 + 0x100 * (b[1] as u32) + 0x1_0000 * (b[2] as u32) + 0x100_0000 * (b[3] as u32))
    }

    /// A matrix of `rows` times `cols` words.
    fn f32s(&mut self, rows: usize, cols: usize) -> (r: Result<Vec<u32>, String>)
        requires
            old(self).wf(),
        ensures
            advanced(r, *old(self), *final(self), 4 * (rows as nat * cols as nat)),
            r matches Ok(v) ==> v@ == words(
                old(self).data@,
                old(self).i as int,
                rows as nat * cols as nat,
            ),
            r is Err ==> final(self).i == old(self).i,
    {
        let n = match rows.checked_mul(cols) {
            Some(n) => n,
            None => return Err("truncated weight file".to_string()),
        };
        if n > (self.data.len() - self.i) / 4 {
            return Err("truncated weight file".to_string());
        }
        let ghost at = self.i as int;
        let mut out: Vec<u32> = Vec::with_capacity(n);
        let mut k: usize = 0;
        while k < n
            invariant
                self.wf(),
                self.data == old(self).data,
                k <= n,
                self.i == at + 4 * k,
                at + 4 * n <= self.data@.len(),
                out@ == words(self.data@, at, k as nat),
            decreases n - k,
        {
            match self.u32() {
                Ok(x) => out.push(x),
                Err(m) => return Err(m),
            }
            k += 1;
            assert(out@ =~= words(self.data@, at, k as nat));
        }
        Ok(out)
    }

    fn linear(&mut self, in_f: usize, out_f: usize) -> (r: Result<Linear, String>)
        requires
            old(self).wf(),
        ensures
            advanced(r, *old(self), *final(self), linear_size(in_f as nat, out_f as nat)),
            r matches Ok(l) ==> l.is_at(
                old(self).data@,
                old(self).i as int,
                in_f as nat,
                out_f as nat,
            ),
            r is Err ==> final(self).i == stopped(*old(self), 4 * (out_f as nat * in_f as nat)),
    {
        let weight = self.f32s(out_f, in_f)?;
        let bias = self.f32s(1, out_f)?;
        Ok(Linear { weight, bias, in_f, out_f })
    }

    fn ln(&mut self, d: usize) -> (r: Result<LayerNorm, String>)
        requires
            old(self).wf(),
        ensures
            advanced(r, *old(self), *final(self), 8 * d as nat),
            r matches Ok(l) ==> l.is_at(old(self).data@, old(self).i as int, d as nat),
            r is Err ==> final(self).i == stopped(*old(self), 4 * d as nat),
    {
        let weight = self.f32s(1, d)?;
        let bias = self.f32s(1, d)?;
        Ok(LayerNorm { weight, bias })
    }

    fn block(&mut self, d: usize, f: usize) -> (r: Result<Block, String>)
        requires
            old(self).wf(),
        ensures
            advanced(r, *old(self), *final(self), block_size(d as nat, f as nat)),
            r matches Ok(b) ==> b.is_at(old(self).data@, old(self).i as int, d as nat, f as nat),
    {
        let ln1 = self.ln(d)?;
        let wq = self.linear(d, d)?;
        let wk = self.linear(d, d)?;
        let wv = self.linear(d, d)?;
        let wo = self.linear(d, d)?;
        let ln2 = self.ln(d)?;
        let fc = self.linear(d, f)?;
        let proj = self.linear(f, d)?;
        Ok(Block { ln1, wq, wk, wv, wo, ln2, fc, proj })
    }
}

/// The part of a file up to block `l` is no longer than the whole file.
proof fn lemma_blocks_fit(l: nat, n: nat, size: nat)
    requires
        l < n,
    ensures
        (l + 1) * size == l * size + size,
        l * size + size <= n * size,
{
    assert((l + 1) * size == l * size + size) by (nonlinear_arith);
    assert((l + 1) * size <= n * size) by (nonlinear_arith)
        requires
            l < n,
    ;
}

impl LanguageModel {
    /// Reads a weight file. A file that names no heads is refused like one whose width they do not
    /// divide.
    pub fn load_bytes(data: &[u8]) -> (r: Result<Self, String>)
        ensures
            match r {
                Ok(model) => file_error(data@) is None && model.is_file(data@) && model.wf(),
                Err(message) => file_error(data@) == Some(message@),
            },
    {
        let n = data.len();
        let mut c = Cursor::new(data);
        let magic = c.take(4)?;
        let word = "TGPT".as_bytes();
        proof {
            reveal_strlit("TGPT");
            is_ascii_chars_encode_utf8("TGPT"@);
            assert(data@.take(4) =~= magic@);
        }
        if magic[0] != word[0] || magic[1] != word[1] || magic[2] != word[2] || magic[3] != word[3] {
            return Err("bad magic".to_string());
        }
        assert(magic@ =~= word@);
        let ver = c.u32()?;
        if ver != 1 {
            let mut message = "unsupported version ".to_string();
            let shown = decimal(ver as u128);
            message.append(shown.as_str());
            return Err(message);
        }
        let vocab_size = c.u32()? as usize;
        let d_model = c.u32()? as usize;
        let n_heads = c.u32()? as usize;
        let n_layers = c.u32()? as usize;
        let d_ff = c.u32()? as usize;
        let max_len = c.u32()? as usize;
        if n_heads == 0 || d_model % n_heads != 0 {
            return Err("d_model not divisible by n_heads".to_string());
        }
        let vlen = c.u32()? as usize;
        if vlen != vocab_size {
            return Err("vocab length mismatch".to_string());
        }
        let ghost h = header(data@);
        let ghost size = h.block_size();
        let vocab = vstd::slice::slice_to_vec(c.take(vlen)?);
        let tok = c.f32s(vocab_size, d_model)?;
        let pos = c.f32s(max_len, d_model)?;
        let mut blocks: Vec<Block> = Vec::new();
        let mut l: usize = 0;
        assert(0 * size == 0);
        while l < n_layers
            invariant
                c.wf(),
                c.data == data,
                l <= n_layers,
                h == header(data@),
                size == h.block_size(),
                n_layers == h.n_layers,
                d_model == h.d_model,
                d_ff == h.d_ff,
                file_error(data@) == (if data@.len() < h.size() {
                    Some("truncated weight file"@)
                } else if data@.len() > h.size() {
                    Some(
                        "trailing "@ + crate::text::decimal_text((data@.len() - h.size()) as nat)
                            + " bytes in weight file"@,
                    )
                } else {
                    None
                }),
                c.i == h.blocks_at() + l * size,
                blocks@.len() == l,
                forall|k: int|
                    0 <= k < l ==> (#[trigger] blocks@[k]).is_at(
                        data@,
                        h.blocks_at() + k * size,
                        h.d_model,
                        h.d_ff,
                    ),
            decreases n_layers - l,
        {
            proof {
                lemma_blocks_fit(l as nat, n_layers as nat, size);
            }
            let block = c.block(d_model, d_ff)?;
            blocks.push(block);
            l += 1;
        }
        let ln_f = c.ln(d_model)?;
        if c.i != n {
            let mut message = "trailing ".to_string();
            let shown = decimal((n - c.i) as u128);
            message.append(shown.as_str());
            message.append(" bytes in weight file");
            return Err(message);
        }
        Ok(
            Self {
                config: Config { vocab_size, d_model, n_heads, n_layers, d_ff, max_len },
                vocab,
                tok,
                pos,
                blocks,
                ln_f,
            },
        )
    }
}

/// Where `b` first stands in `vocab`.
pub open spec fn find_byte(vocab: Seq<u8>, b: u8) -> Option<usize>
    decreases vocab.len(),
{
    if vocab.len() == 0 {
        None
    } else {
        match find_byte(vocab.drop_last(), b) {
            Some(i) => Some(i),
            None => if vocab.last() == b {
                Some((vocab.len() - 1) as usize)
            } else {
                None
            },
        }
    }
}

/// The token of a byte: its own, or that of a space for a byte that the vocabulary lacks.
pub open spec fn token_of(vocab: Seq<u8>, b: u8) -> Option<usize> {
    match find_byte(vocab, b) {
        Some(i) => Some(i),
        None => find_byte(vocab, 0x20),
    }
}

/// The tokens of the bytes that have one, in order.
pub open spec fn tokens_of(vocab: Seq<u8>, bytes: Seq<u8>) -> Seq<usize>
    decreases bytes.len(),
{
    if bytes.len() == 0 {
        seq![]
    } else {
        let before = tokens_of(vocab, bytes.drop_last());
        match token_of(vocab, bytes.last()) {
            Some(i) => before.push(i),
            None => before,
        }
    }
}

/// The tokens of a prompt; one without any becomes token 0.
pub open spec fn encoded(vocab: Seq<u8>, bytes: Seq<u8>) -> Seq<usize> {
    let ids = tokens_of(vocab, bytes);
    if ids.len() == 0 {
        seq![0usize]
    } else {
        ids
    }
}

/// The byte of a token; a token behind the vocabulary has its last byte.
pub open spec fn decoded(vocab: Seq<u8>, id: usize) -> u8 {
    if id < vocab.len() {
        vocab[id as int]
    } else {
        vocab.last()
    }
}

/// What tokens spell: a character for the byte of each.
pub open spec fn text_of(vocab: Seq<u8>, ids: Seq<usize>) -> Seq<char> {
    ids.map_values(|id: usize| decoded(vocab, id) as char)
}

/// The last `n` items, or all if there are fewer.
pub open spec fn last_of<T>(items: Seq<T>, n: nat) -> Seq<T> {
    if items.len() > n {
        items.skip(items.len() - n)
    } else {
        items
    }
}

/// Row `i` of a matrix whose rows are `d` wide.
pub open spec fn row<T>(matrix: Seq<T>, d: nat, i: nat) -> Seq<T> {
    matrix.subrange((i * d) as int, (i * d + d) as int)
}

/// Where `b` first stands in `vocab`.
fn position(vocab: &Vec<u8>, b: u8) -> (r: Option<usize>)
    ensures
        r == find_byte(vocab@, b),
{
    let mut k: usize = 0;
    while k < vocab.len()
        invariant
            k <= vocab@.len(),
            find_byte(vocab@.take(k as int), b) is None,
        decreases vocab@.len() - k,
    {
        let ghost next = vocab@.take(k + 1);
        assert(next.drop_last() =~= vocab@.take(k as int));
        if vocab[k] == b {
            proof {
                assert(find_byte(next, b) == Some(k));
                lemma_find_byte_stays(vocab@, b, k + 1);
            }
            return Some(k);
        }
        k += 1;
    }
    assert(vocab@.take(k as int) =~= vocab@);
    None
}

/// A byte found in the front of a vocabulary is found there in the whole.
proof fn lemma_find_byte_stays(vocab: Seq<u8>, b: u8, k: int)
    requires
        0 <= k <= vocab.len(),
        find_byte(vocab.take(k), b) is Some,
    ensures
        find_byte(vocab, b) == find_byte(vocab.take(k), b),
    decreases vocab.len() - k,
{
    if k < vocab.len() {
        assert(vocab.take(k + 1).drop_last() =~= vocab.take(k));
        lemma_find_byte_stays(vocab, b, k + 1);
    } else {
        assert(vocab.take(k) =~= vocab);
    }
}

/// What is found stands there, and nowhere before.
pub proof fn lemma_find_byte(vocab: Seq<u8>, b: u8)
    requires
        vocab.len() <= usize::MAX,
    ensures
        match find_byte(vocab, b) {
            Some(i) => i < vocab.len() && vocab[i as int] == b && forall|k: int|
                0 <= k < i ==> vocab[k] != b,
            None => forall|k: int| 0 <= k < vocab.len() ==> vocab[k] != b,
        },
    decreases vocab.len(),
{
    if vocab.len() > 0 {
        let front = vocab.drop_last();
        lemma_find_byte(front, b);
        assert forall|k: int| 0 <= k < front.len() implies vocab[k] == front[k] by {}
    }
}

impl LanguageModel {
    /// The tokens of `text`, byte by byte; a byte that the vocabulary lacks counts as a space, and
    /// is left out if there is no space either.
    pub fn encode(&self, text: &str) -> (r: Vec<usize>)
        ensures
            r@ == encoded(self.vocab@, text.spec_bytes()),
    {
        let bytes = text.as_bytes();
        let mut ids: Vec<usize> = Vec::new();
        let mut k: usize = 0;
        while k < bytes.len()
            invariant
                k <= bytes@.len(),
                ids@ == tokens_of(self.vocab@, bytes@.take(k as int)),
            decreases bytes@.len() - k,
        {
            let b = bytes[k];
            assert(bytes@.take(k + 1).drop_last() =~= bytes@.take(k as int));
            match position(&self.vocab, b) {
                Some(i) => ids.push(i),
                None => match position(&self.vocab, 0x20) {
                    Some(i) => ids.push(i),
                    None => {},
                },
            }
            k += 1;
        }
        assert(bytes@.take(k as int) =~= bytes@);
        if ids.len() == 0 {
            ids.push(0);
            assert(ids@ =~= seq![0usize]);
        }
        ids
    }

    /// The byte of a token.
    pub fn decode_byte(&self, id: usize) -> (r: u8)
        requires
            self.vocab@.len() > 0,
        ensures
            r == decoded(self.vocab@, id),
    {
        if id < self.vocab.len() {
            self.vocab[id]
        } else {
            self.vocab[self.vocab.len() - 1]
        }
    }

    /// Are the tables as large as the sizes say?
    pub open spec fn wf(self) -> bool {
        &&& self.vocab@.len() == self.config.vocab_size
        &&& self.tok@.len() == self.config.vocab_size * self.config.d_model
        &&& self.pos@.len() == self.config.max_len * self.config.d_model
        &&& self.blocks@.len() == self.config.n_layers
    }

    /// The embedding of a token.
    pub fn emb_tok(&self, id: usize) -> (r: &[u32])
        requires
            self.wf(),
            id < self.config.vocab_size,
        ensures
            r@ == row(self.tok@, self.config.d_model as nat, id as nat),
    {
        let d = self.config.d_model;
        proof {
            lemma_row_fits(id as nat, self.config.vocab_size as nat, d as nat);
        }
        let table = self.tok.as_slice();
        assert(id * d + d <= table.len());
        vstd::slice::slice_subrange(table, id * d, id * d + d)
    }

    /// The embedding of a position; positions wrap round at `max_len`.
    pub fn emb_pos(&self, pos: usize) -> (r: &[u32])
        requires
            self.wf(),
            self.config.max_len > 0,
        ensures
            r@ == row(
                self.pos@,
                self.config.d_model as nat,
                pos as nat % self.config.max_len as nat,
            ),
    {
        let d = self.config.d_model;
        let p = pos % self.config.max_len;
        proof {
            lemma_row_fits(p as nat, self.config.max_len as nat, d as nat);
        }
        let table = self.pos.as_slice();
        assert(p * d + d <= table.len());
        vstd::slice::slice_subrange(table, p * d, p * d + d)
    }

    /// The part of a prompt that the model looks at: its last `max_len` tokens.
    pub fn context<'a>(&self, ids: &'a [usize]) -> (r: &'a [usize])
        ensures
            r@ == last_of(ids@, self.config.max_len as nat),
    {
        let n = ids.len();
        if n > self.config.max_len {
            vstd::slice::slice_subrange(ids, n - self.config.max_len, n)
        } else {
            ids
        }
    }
}

/// Row `i` of `n` rows lies inside the matrix.
proof fn lemma_row_fits(i: nat, n: nat, d: nat)
    requires
        i < n,
    ensures
        0 <= i * d,
        i * d + d <= n * d,
{
    assert(i * d + d <= n * d) by (nonlinear_arith)
        requires
            i < n,
    ;
}

/// A prompt always has tokens, and they are tokens of the vocabulary.
pub proof fn law_prompt_is_never_empty(vocab: Seq<u8>, bytes: Seq<u8>)
    requires
        0 < vocab.len() <= usize::MAX,
    ensures
        encoded(vocab, bytes).len() > 0,
        forall|i: int| 0 <= i < encoded(vocab, bytes).len() ==> #[trigger] encoded(vocab, bytes)[i]
            < vocab.len(),
{
    lemma_tokens_inside(vocab, bytes);
}

proof fn lemma_tokens_inside(vocab: Seq<u8>, bytes: Seq<u8>)
    requires
        vocab.len() <= usize::MAX,
    ensures
        forall|i: int| 0 <= i < tokens_of(vocab, bytes).len() ==> #[trigger] tokens_of(vocab, bytes)[i]
            < vocab.len(),
    decreases bytes.len(),
{
    if bytes.len() > 0 {
        lemma_tokens_inside(vocab, bytes.drop_last());
        lemma_find_byte(vocab, bytes.last());
        lemma_find_byte(vocab, 0x20);
        let front = tokens_of(vocab, bytes.drop_last());
        let all = tokens_of(vocab, bytes);
        assert forall|i: int| 0 <= i < all.len() implies #[trigger] all[i] < vocab.len() by {
            if i < front.len() {
                assert(all[i] == front[i]);
            }
        }
    }
}

/// Decoding the tokens of a prompt gives the prompt back, if the vocabulary has all its bytes.
pub proof fn law_decode_undoes_encode(vocab: Seq<u8>, bytes: Seq<u8>)
    requires
        vocab.len() <= usize::MAX,
        bytes.len() > 0,
        forall|i: int| 0 <= i < bytes.len() ==> vocab.contains(#[trigger] bytes[i]),
    ensures
        encoded(vocab, bytes).map_values(|id: usize| decoded(vocab, id)) == bytes,
{
    lemma_tokens_decode(vocab, bytes);
    assert(encoded(vocab, bytes).map_values(|id: usize| decoded(vocab, id)) =~= bytes);
}

proof fn lemma_tokens_decode(vocab: Seq<u8>, bytes: Seq<u8>)
    requires
        vocab.len() <= usize::MAX,
        forall|i: int| 0 <= i < bytes.len() ==> vocab.contains(#[trigger] bytes[i]),
    ensures
        tokens_of(vocab, bytes).len() == bytes.len(),
        forall|i: int| 0 <= i < bytes.len() ==> decoded(vocab, #[trigger] tokens_of(vocab, bytes)[i])
            == bytes[i],
    decreases bytes.len(),
{
    if bytes.len() > 0 {
        let front = bytes.drop_last();
        assert forall|i: int| 0 <= i < front.len() implies vocab.contains(#[trigger] front[i]) by {
            assert(front[i] == bytes[i]);
        }
        lemma_tokens_decode(vocab, front);
        lemma_find_byte(vocab, bytes.last());
        assert(vocab.contains(bytes[bytes.len() - 1]));
    }
}

/// What a vocabulary can say of some bytes: a byte that it lacks becomes a space, and is left out if
/// there is no space either.
pub open spec fn sayable(vocab: Seq<u8>, bytes: Seq<u8>) -> Seq<u8> {
    bytes.map_values(
        |b: u8|
            if vocab.contains(b) {
                b
            } else {
                0x20u8
            },
    ).filter(|b: u8| vocab.contains(b))
}

/// The tokens of a prompt spell what the vocabulary can say of it, byte by byte, and each is the
/// first token with its byte. A prompt of which nothing can be said is token 0.
pub proof fn law_tokens_spell_the_prompt(vocab: Seq<u8>, bytes: Seq<u8>)
    requires
        vocab.len() <= usize::MAX,
    ensures
        ({
            let ids = encoded(vocab, bytes);
            let said = sayable(vocab, bytes);
            if said.len() == 0 {
                ids == seq![0usize]
            } else {
                &&& ids.len() == said.len()
                &&& forall|k: int|
                    0 <= k < ids.len() ==> {
                        &&& (#[trigger] ids[k]) < vocab.len()
                        &&& vocab[ids[k] as int] == said[k]
                        &&& forall|j: int| 0 <= j < ids[k] ==> vocab[j] != said[k]
                    }
            }
        }),
{
    lemma_tokens_spell(vocab, bytes);
}

proof fn lemma_tokens_spell(vocab: Seq<u8>, bytes: Seq<u8>)
    requires
        vocab.len() <= usize::MAX,
    ensures
        tokens_of(vocab, bytes).len() == sayable(vocab, bytes).len(),
        forall|k: int|
            0 <= k < tokens_of(vocab, bytes).len() ==> {
                &&& (#[trigger] tokens_of(vocab, bytes)[k]) < vocab.len()
                &&& vocab[tokens_of(vocab, bytes)[k] as int] == sayable(vocab, bytes)[k]
                &&& forall|j: int|
                    0 <= j < tokens_of(vocab, bytes)[k] ==> vocab[j] != sayable(vocab, bytes)[k]
            },
    decreases bytes.len(),
{
    reveal(Seq::filter);
    let said = |b: u8|
        if vocab.contains(b) {
            b
        } else {
            0x20u8
        };
    let known = |b: u8| vocab.contains(b);
    let mapped = bytes.map_values(said);
    if bytes.len() > 0 {
        let front = bytes.drop_last();
        lemma_tokens_spell(vocab, front);
        lemma_find_byte(vocab, bytes.last());
        lemma_find_byte(vocab, 0x20);
        assert(mapped.drop_last() =~= front.map_values(said));
        assert(mapped.last() == said(bytes.last()));
        let (before, old_said) = (tokens_of(vocab, front), sayable(vocab, front));
        let (all, all_said) = (tokens_of(vocab, bytes), sayable(vocab, bytes));
        assert(all_said == if known(mapped.last()) {
            old_said.push(mapped.last())
        } else {
            old_said
        });
        match find_byte(vocab, bytes.last()) {
            Some(i) => {
                assert(vocab[i as int] == bytes.last());
                assert(known(mapped.last()));
            },
            None => {
                assert(!vocab.contains(bytes.last()));
                match find_byte(vocab, 0x20) {
                    Some(i) => {
                        assert(vocab[i as int] == 0x20);
                        assert(known(mapped.last()));
                    },
                    None => {
                        assert(!vocab.contains(0x20u8));
                    },
                }
            },
        }
        assert forall|k: int| 0 <= k < all.len() implies {
            &&& (#[trigger] all[k]) < vocab.len()
            &&& vocab[all[k] as int] == all_said[k]
            &&& forall|j: int| 0 <= j < all[k] ==> vocab[j] != all_said[k]
        } by {
            if k < before.len() {
                assert(all[k] == before[k] && all_said[k] == old_said[k]);
            }
        }
    } else {
        assert(mapped.len() == 0);
    }
}

/// A vocabulary that has all the bytes can say them as they are.
pub proof fn lemma_all_sayable(vocab: Seq<u8>, bytes: Seq<u8>)
    requires
        forall|i: int| 0 <= i < bytes.len() ==> vocab.contains(#[trigger] bytes[i]),
    ensures
        sayable(vocab, bytes) == bytes,
    decreases bytes.len(),
{
    reveal(Seq::filter);
    let said = |b: u8|
        if vocab.contains(b) {
            b
        } else {
            0x20u8
        };
    let mapped = bytes.map_values(said);
    if bytes.len() > 0 {
        let front = bytes.drop_last();
        assert forall|i: int| 0 <= i < front.len() implies vocab.contains(#[trigger] front[i]) by {
            assert(front[i] == bytes[i]);
        }
        lemma_all_sayable(vocab, front);
        assert(vocab.contains(bytes[bytes.len() - 1]));
        assert(mapped.drop_last() =~= front.map_values(said));
        assert(mapped.last() == bytes.last());
        assert(front.push(bytes.last()) =~= bytes);
    } else {
        assert(sayable(vocab, bytes) =~= bytes);
    }
}

/// A token inside the vocabulary is read as the byte that stands there, and any other as the last.
pub proof fn law_token_is_read_in_the_vocabulary(vocab: Seq<u8>, id: usize)
    requires
        vocab.len() > 0,
    ensures
        id < vocab.len() ==> decoded(vocab, id) == vocab[id as int],
        id >= vocab.len() ==> decoded(vocab, id) == vocab[vocab.len() - 1],
{
}

/// The embedding of a token is its row of the table: feature `j` of token `id` stands `d * id + j`
/// words behind the start.
pub proof fn law_row_holds_its_features<T>(matrix: Seq<T>, n: nat, d: nat, i: nat, j: nat)
    requires
        matrix.len() == n * d,
        i < n,
        j < d,
    ensures
        row(matrix, d, i).len() == d,
        row(matrix, d, i)[j as int] == matrix[(d * i + j) as int],
{
    lemma_row_fits(i, n, d);
    assert(d * i == i * d) by (nonlinear_arith);
}

/// The part of a prompt that the model looks at is its end: as many tokens as fit, or all, in
/// order.
pub proof fn law_context_is_the_end_of_the_prompt(ids: Seq<usize>, n: nat)
    ensures
        last_of(ids, n).len() == (if ids.len() <= n {
            ids.len()
        } else {
            n
        }),
        forall|k: int|
            1 <= k <= last_of(ids, n).len() ==> last_of(ids, n)[last_of(ids, n).len() - k]
                == #[trigger] ids[ids.len() - k],
{
}

/// The seed makes an odd state, which keeps all its bits but the lowest.
pub proof fn law_seed_is_made_odd(seed: u64)
    ensures
        seeded(seed) % 2 == 1,
        seeded(seed) / 2 == seed / 2,
{
}

/// The generator can be run back: the state before is the state behind, less one, times the inverse
/// of the multiplier modulo 2^64. So no two states lead to the same one.
pub proof fn law_generator_runs_back(state: u64)
    ensures
        (0xc097ef87329e28a5 * (lcg_next(state) - 1)) % 0x1_0000_0000_0000_0000 == state,
{
    let (a, inv, m) = (6364136223846793005int, 0xc097ef87329e28a5int, 0x1_0000_0000_0000_0000int);
    let x = state as int;
    let all = a * x + 1;
    let y = all % m;
    let q = all / m;
    vstd::arithmetic::div_mod::lemma_fundamental_div_mod(all, m);
    assert(lcg_next(state) == y);
    let t = 4787856489426250814int;
    assert(inv * a == t * m + 1);
    assert(inv * (y - 1) == (t * x - inv * q) * m + x) by (nonlinear_arith)
        requires
            a * x + 1 == m * q + y,
            inv * a == t * m + 1,
    ;
    vstd::arithmetic::div_mod::lemma_fundamental_div_mod_converse(
        inv * (y - 1),
        m,
        t * x - inv * q,
        x,
    );
}

} // verus!
