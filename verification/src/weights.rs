//! Weight files as they are written, and the law that loading one gives back the model.

use vstd::prelude::*;
use vstd::string::*;
use vstd::utf8::*;

use crate::lm::{
    block_size, file_error, header, le32, linear_size, words, Block, LanguageModel, LayerNorm, Linear,
};
use crate::text::decimal_text;

verus! {

/// A word as it is written: its digits to the base 256, the lowest first.
pub open spec fn word_bytes(w: u32) -> Seq<u8> {
    seq![
        (w % 256) as u8,
        (w / 256 % 256) as u8,
        (w / 65536 % 256) as u8,
        (w / 16777216) as u8,
    ]
}

/// Words as they are written, one behind the other.
pub open spec fn words_bytes(ws: Seq<u32>) -> Seq<u8>
    decreases ws.len(),
{
    if ws.len() == 0 {
        seq![]
    } else {
        words_bytes(ws.drop_last()) + word_bytes(ws.last())
    }
}

/// A linear layer as it is written: its matrix row by row, and its bias.
pub open spec fn linear_bytes(l: Linear) -> Seq<u8> {
    words_bytes(l.weight@) + words_bytes(l.bias@)
}

/// A normalisation as it is written: its scale, and its bias.
pub open spec fn norm_bytes(l: LayerNorm) -> Seq<u8> {
    words_bytes(l.weight@) + words_bytes(l.bias@)
}

/// A block as it is written: normalisation, query, key, value and output of the attention, another
/// normalisation, and the two layers of the feed-forward part.
pub open spec fn block_bytes(b: Block) -> Seq<u8> {
    norm_bytes(b.ln1) + linear_bytes(b.wq) + linear_bytes(b.wk) + linear_bytes(b.wv) + linear_bytes(
        b.wo,
    ) + norm_bytes(b.ln2) + linear_bytes(b.fc) + linear_bytes(b.proj)
}

/// Blocks as they are written.
pub open spec fn blocks_bytes(blocks: Seq<Block>) -> Seq<u8>
    decreases blocks.len(),
{
    if blocks.len() == 0 {
        seq![]
    } else {
        blocks_bytes(blocks.drop_last()) + block_bytes(blocks.last())
    }
}

/// The head of a weight file: the letters TGPT, version 1, the sizes, and the length of the
/// vocabulary once more.
pub open spec fn head_bytes(m: LanguageModel) -> Seq<u8> {
    seq![0x54u8, 0x47u8, 0x50u8, 0x54u8] + words_bytes(
        seq![
            1u32,
            m.config.vocab_size as u32,
            m.config.d_model as u32,
            m.config.n_heads as u32,
            m.config.n_layers as u32,
            m.config.d_ff as u32,
            m.config.max_len as u32,
            m.vocab@.len() as u32,
        ],
    )
}

/// A weight file as it is written: head, vocabulary, token and position embedding, blocks, and the
/// last normalisation.
pub open spec fn file_bytes(m: LanguageModel) -> Seq<u8> {
    head_bytes(m) + m.vocab@ + words_bytes(m.tok@) + words_bytes(m.pos@) + blocks_bytes(m.blocks@)
        + norm_bytes(m.ln_f)
}

impl Linear {
    /// Has the layer the shape of `out_f` rows of `in_f`?
    pub open spec fn shaped(self, in_f: nat, out_f: nat) -> bool {
        &&& self.in_f == in_f
        &&& self.out_f == out_f
        &&& self.weight@.len() == out_f * in_f
        &&& self.bias@.len() == out_f
    }
}

impl LayerNorm {
    /// Is the normalisation over `d` features?
    pub open spec fn shaped(self, d: nat) -> bool {
        self.weight@.len() == d && self.bias@.len() == d
    }
}

impl Block {
    /// Is the block of width `d`, with `f` features in its hidden layer?
    pub open spec fn shaped(self, d: nat, f: nat) -> bool {
        &&& self.ln1.shaped(d)
        &&& self.wq.shaped(d, d)
        &&& self.wk.shaped(d, d)
        &&& self.wv.shaped(d, d)
        &&& self.wo.shaped(d, d)
        &&& self.ln2.shaped(d)
        &&& self.fc.shaped(d, f)
        &&& self.proj.shaped(f, d)
    }
}

impl LanguageModel {
    /// Do the parts of the model have the shapes that its sizes say, and can a file hold the sizes?
    pub open spec fn shaped(self) -> bool {
        let c = self.config;
        &&& c.vocab_size <= u32::MAX && c.d_model <= u32::MAX && c.n_heads <= u32::MAX
        &&& c.n_layers <= u32::MAX && c.d_ff <= u32::MAX && c.max_len <= u32::MAX
        &&& c.n_heads > 0
        &&& c.d_model % c.n_heads == 0
        &&& self.vocab@.len() == c.vocab_size
        &&& self.tok@.len() == c.vocab_size * c.d_model
        &&& self.pos@.len() == c.max_len * c.d_model
        &&& self.blocks@.len() == c.n_layers
        &&& forall|l: int|
            0 <= l < self.blocks@.len() ==> (#[trigger] self.blocks@[l]).shaped(
                c.d_model as nat,
                c.d_ff as nat,
            )
        &&& self.ln_f.shaped(c.d_model as nat)
    }
}

/// Do the bytes of `part` stand in `s` at `i`?
spec fn holds(s: Seq<u8>, i: int, part: Seq<u8>) -> bool {
    &&& 0 <= i
    &&& i + part.len() <= s.len()
    &&& s.subrange(i, i + part.len()) == part
}

proof fn lemma_parts(s: Seq<u8>, i: int, a: Seq<u8>, b: Seq<u8>)
    requires
        holds(s, i, a + b),
    ensures
        holds(s, i, a),
        holds(s, i + a.len(), b),
{
    let all = a + b;
    assert forall|k: int| 0 <= k < all.len() implies s[i + k] == all[k] by {
        assert(s.subrange(i, i + all.len())[k] == all[k]);
    }
    assert(s.subrange(i, i + a.len()) =~= a) by {
        assert forall|k: int| 0 <= k < a.len() implies s[i + k] == a[k] by {
            assert(all[k] == a[k]);
        }
    }
    assert(s.subrange(i + a.len(), i + a.len() + b.len()) =~= b) by {
        assert forall|k: int| 0 <= k < b.len() implies s[i + a.len() + k] == b[k] by {
            assert(s[i + (a.len() + k)] == all[a.len() + k]);
        }
    }
}

/// The digits of a word to the base 256 make it up.
proof fn lemma_digits(w: u32)
    ensures
        w == w % 256 + 256 * (w / 256 % 256) + 65536 * (w / 65536 % 256) + 16777216 * (w / 16777216),
        w / 16777216 < 256,
{
    assert(w == w % 256 + 256 * (w / 256 % 256) + 65536 * (w / 65536 % 256) + 16777216 * (w / 16777216))
        by (bit_vector);
    assert(w / 16777216 < 256) by (bit_vector);
}

/// Words are read little-endian: the digits of a read word to the base 256, the lowest first, are
/// the four bytes.
pub proof fn law_words_are_little_endian(s: Seq<u8>, i: int)
    requires
        0 <= i,
        i + 4 <= s.len(),
    ensures
        le32(s, i) <= u32::MAX,
        le32(s, i) % 256 == s[i],
        le32(s, i) / 256 % 256 == s[i + 1],
        le32(s, i) / 65536 % 256 == s[i + 2],
        le32(s, i) / 16777216 == s[i + 3],
{
}

/// A word that was written is read.
pub proof fn law_word_reads_back(s: Seq<u8>, i: int, w: u32)
    requires
        0 <= i,
        i + 4 <= s.len(),
        s.subrange(i, i + 4) == word_bytes(w),
    ensures
        le32(s, i) == w,
{
    let part = s.subrange(i, i + 4);
    assert(s[i] == part[0] && s[i + 1] == part[1] && s[i + 2] == part[2] && s[i + 3] == part[3]);
    lemma_digits(w);
}

proof fn lemma_words_len(ws: Seq<u32>)
    ensures
        words_bytes(ws).len() == 4 * ws.len(),
    decreases ws.len(),
{
    if ws.len() > 0 {
        lemma_words_len(ws.drop_last());
    }
}

/// Words that were written are read, in order.
proof fn lemma_words(s: Seq<u8>, i: int, ws: Seq<u32>)
    requires
        holds(s, i, words_bytes(ws)),
    ensures
        words(s, i, ws.len()) == ws,
        forall|k: int| 0 <= k < ws.len() ==> le32(s, i + 4 * k) == #[trigger] ws[k],
    decreases ws.len(),
{
    if ws.len() > 0 {
        let front = ws.drop_last();
        lemma_words_len(front);
        lemma_parts(s, i, words_bytes(front), word_bytes(ws.last()));
        lemma_words(s, i, front);
        law_word_reads_back(s, i + 4 * front.len(), ws.last());
        assert forall|k: int| 0 <= k < ws.len() implies le32(s, i + 4 * k) == #[trigger] ws[k] by {
            if k < front.len() {
                assert(ws[k] == front[k]);
            }
        }
    }
    assert(words(s, i, ws.len()) =~= ws);
}

proof fn lemma_linear(s: Seq<u8>, i: int, l: Linear, in_f: nat, out_f: nat)
    requires
        holds(s, i, linear_bytes(l)),
        l.shaped(in_f, out_f),
    ensures
        l.is_at(s, i, in_f, out_f),
        linear_bytes(l).len() == linear_size(in_f, out_f),
{
    lemma_words_len(l.weight@);
    lemma_words_len(l.bias@);
    lemma_parts(s, i, words_bytes(l.weight@), words_bytes(l.bias@));
    lemma_words(s, i, l.weight@);
    lemma_words(s, i + 4 * (out_f * in_f), l.bias@);
}

proof fn lemma_norm(s: Seq<u8>, i: int, l: LayerNorm, d: nat)
    requires
        holds(s, i, norm_bytes(l)),
        l.shaped(d),
    ensures
        l.is_at(s, i, d),
        norm_bytes(l).len() == 8 * d,
{
    lemma_words_len(l.weight@);
    lemma_words_len(l.bias@);
    lemma_parts(s, i, words_bytes(l.weight@), words_bytes(l.bias@));
    lemma_words(s, i, l.weight@);
    lemma_words(s, i + 4 * d, l.bias@);
}

proof fn lemma_linear_len(l: Linear, in_f: nat, out_f: nat)
    requires
        l.shaped(in_f, out_f),
    ensures
        linear_bytes(l).len() == linear_size(in_f, out_f),
{
    lemma_words_len(l.weight@);
    lemma_words_len(l.bias@);
}

proof fn lemma_norm_len(l: LayerNorm, d: nat)
    requires
        l.shaped(d),
    ensures
        norm_bytes(l).len() == 8 * d,
{
    lemma_words_len(l.weight@);
    lemma_words_len(l.bias@);
}

proof fn lemma_block_len(b: Block, d: nat, f: nat)
    requires
        b.shaped(d, f),
    ensures
        block_bytes(b).len() == block_size(d, f),
{
    lemma_norm_len(b.ln1, d);
    lemma_norm_len(b.ln2, d);
    lemma_linear_len(b.wq, d, d);
    lemma_linear_len(b.wk, d, d);
    lemma_linear_len(b.wv, d, d);
    lemma_linear_len(b.wo, d, d);
    lemma_linear_len(b.fc, d, f);
    lemma_linear_len(b.proj, f, d);
}

/// The parts of a written block stand one behind the other.
#[verifier::spinoff_prover]
proof fn lemma_block_parts(s: Seq<u8>, i: int, b: Block)
    requires
        holds(s, i, block_bytes(b)),
    ensures
        ({
            let i1 = i + norm_bytes(b.ln1).len();
            let i2 = i1 + linear_bytes(b.wq).len();
            let i3 = i2 + linear_bytes(b.wk).len();
            let i4 = i3 + linear_bytes(b.wv).len();
            let i5 = i4 + linear_bytes(b.wo).len();
            let i6 = i5 + norm_bytes(b.ln2).len();
            let i7 = i6 + linear_bytes(b.fc).len();
            &&& holds(s, i, norm_bytes(b.ln1))
            &&& holds(s, i1, linear_bytes(b.wq))
            &&& holds(s, i2, linear_bytes(b.wk))
            &&& holds(s, i3, linear_bytes(b.wv))
            &&& holds(s, i4, linear_bytes(b.wo))
            &&& holds(s, i5, norm_bytes(b.ln2))
            &&& holds(s, i6, linear_bytes(b.fc))
            &&& holds(s, i7, linear_bytes(b.proj))
        }),
{
    let p1 = norm_bytes(b.ln1);
    let p2 = p1 + linear_bytes(b.wq);
    let p3 = p2 + linear_bytes(b.wk);
    let p4 = p3 + linear_bytes(b.wv);
    let p5 = p4 + linear_bytes(b.wo);
    let p6 = p5 + norm_bytes(b.ln2);
    let p7 = p6 + linear_bytes(b.fc);
    lemma_parts(s, i, p7, linear_bytes(b.proj));
    lemma_parts(s, i, p6, linear_bytes(b.fc));
    lemma_parts(s, i, p5, norm_bytes(b.ln2));
    lemma_parts(s, i, p4, linear_bytes(b.wo));
    lemma_parts(s, i, p3, linear_bytes(b.wv));
    lemma_parts(s, i, p2, linear_bytes(b.wk));
    lemma_parts(s, i, p1, linear_bytes(b.wq));
}

#[verifier::spinoff_prover]
proof fn lemma_block(s: Seq<u8>, i: int, b: Block, d: nat, f: nat)
    requires
        holds(s, i, block_bytes(b)),
        b.shaped(d, f),
    ensures
        b.is_at(s, i, d, f),
{
    let one = linear_size(d, d);
    lemma_block_parts(s, i, b);
    lemma_norm(s, i, b.ln1, d);
    lemma_linear_len(b.wq, d, d);
    lemma_linear_len(b.wk, d, d);
    lemma_linear_len(b.wv, d, d);
    lemma_linear_len(b.wo, d, d);
    lemma_norm_len(b.ln2, d);
    lemma_linear_len(b.fc, d, f);
    lemma_linear(s, i + 8 * d, b.wq, d, d);
    lemma_linear(s, i + 8 * d + one, b.wk, d, d);
    lemma_linear(s, i + 8 * d + 2 * one, b.wv, d, d);
    lemma_linear(s, i + 8 * d + 3 * one, b.wo, d, d);
    lemma_norm(s, i + 8 * d + 4 * one, b.ln2, d);
    lemma_linear(s, i + 16 * d + 4 * one, b.fc, d, f);
    lemma_linear(s, i + 16 * d + 4 * one + linear_size(d, f), b.proj, f, d);
}

proof fn lemma_blocks(s: Seq<u8>, i: int, blocks: Seq<Block>, d: nat, f: nat)
    requires
        forall|l: int| 0 <= l < blocks.len() ==> (#[trigger] blocks[l]).shaped(d, f),
    ensures
        blocks_bytes(blocks).len() == blocks.len() * block_size(d, f),
        holds(s, i, blocks_bytes(blocks)) ==> forall|l: int|
            0 <= l < blocks.len() ==> (#[trigger] blocks[l]).is_at(s, i + l * block_size(d, f), d, f),
    decreases blocks.len(),
{
    if blocks.len() > 0 {
        let front = blocks.drop_last();
        let n = front.len();
        let size = block_size(d, f);
        assert forall|l: int| 0 <= l < front.len() implies (#[trigger] front[l]).shaped(d, f) by {
            assert(front[l] == blocks[l]);
        }
        lemma_blocks(s, i, front, d, f);
        assert(blocks[n as int].shaped(d, f));
        lemma_block_len(blocks.last(), d, f);
        assert((n + 1) * size == n * size + size) by (nonlinear_arith);
        if holds(s, i, blocks_bytes(blocks)) {
            lemma_parts(s, i, blocks_bytes(front), block_bytes(blocks.last()));
            lemma_block(s, i + n * size, blocks.last(), d, f);
            assert forall|l: int| 0 <= l < blocks.len() implies (#[trigger] blocks[l]).is_at(
                s,
                i + l * size,
                d,
                f,
            ) by {
                if l < n {
                    assert(front[l] == blocks[l]);
                }
            }
        }
    } else {
        assert(0 * block_size(d, f) == 0) by (nonlinear_arith);
    }
}

/// The head of a written file is read.
proof fn lemma_head(m: LanguageModel, s: Seq<u8>)
    requires
        m.shaped(),
        holds(s, 0, head_bytes(m)),
    ensures
        head_bytes(m).len() == 36,
        s.take(4) == "TGPT".spec_bytes(),
        le32(s, 4) == 1,
        header(s).vocab_size == m.config.vocab_size,
        header(s).d_model == m.config.d_model,
        header(s).n_heads == m.config.n_heads,
        header(s).n_layers == m.config.n_layers,
        header(s).d_ff == m.config.d_ff,
        header(s).max_len == m.config.max_len,
        le32(s, 32) == m.config.vocab_size,
{
    let magic = seq![0x54u8, 0x47u8, 0x50u8, 0x54u8];
    let ws = seq![
        1u32,
        m.config.vocab_size as u32,
        m.config.d_model as u32,
        m.config.n_heads as u32,
        m.config.n_layers as u32,
        m.config.d_ff as u32,
        m.config.max_len as u32,
        m.vocab@.len() as u32,
    ];
    lemma_words_len(ws);
    lemma_parts(s, 0, magic, words_bytes(ws));
    lemma_words(s, 4, ws);
    assert(le32(s, 4int + 4 * 0) == ws[0]);
    assert(le32(s, 4int + 4 * 1) == ws[1]);
    assert(le32(s, 4int + 4 * 2) == ws[2]);
    assert(le32(s, 4int + 4 * 3) == ws[3]);
    assert(le32(s, 4int + 4 * 4) == ws[4]);
    assert(le32(s, 4int + 4 * 5) == ws[5]);
    assert(le32(s, 4int + 4 * 6) == ws[6]);
    assert(le32(s, 4int + 4 * 7) == ws[7]);
    reveal_strlit("TGPT");
    is_ascii_chars_encode_utf8("TGPT"@);
    assert(s.take(4) =~= s.subrange(0, 4));
    assert(magic =~= "TGPT".spec_bytes());
}

/// The parts of a written file stand one behind the other.
#[verifier::spinoff_prover]
proof fn lemma_file_parts(m: LanguageModel)
    requires
        m.shaped(),
    ensures
        ({
            let s = file_bytes(m);
            let i1 = head_bytes(m).len() as int;
            let i2 = i1 + m.vocab@.len();
            let i3 = i2 + 4 * m.tok@.len();
            let i4 = i3 + 4 * m.pos@.len();
            let i5 = i4 + blocks_bytes(m.blocks@).len();
            &&& holds(s, 0, head_bytes(m))
            &&& holds(s, i1, m.vocab@)
            &&& holds(s, i2, words_bytes(m.tok@))
            &&& holds(s, i3, words_bytes(m.pos@))
            &&& holds(s, i4, blocks_bytes(m.blocks@))
            &&& holds(s, i5, norm_bytes(m.ln_f))
            &&& s.len() == i5 + norm_bytes(m.ln_f).len()
        }),
{
    let s = file_bytes(m);
    let p1 = head_bytes(m);
    let p2 = p1 + m.vocab@;
    let p3 = p2 + words_bytes(m.tok@);
    let p4 = p3 + words_bytes(m.pos@);
    let p5 = p4 + blocks_bytes(m.blocks@);
    assert(s.subrange(0, s.len() as int) =~= s);
    lemma_words_len(m.tok@);
    lemma_words_len(m.pos@);
    lemma_parts(s, 0, p5, norm_bytes(m.ln_f));
    lemma_parts(s, 0, p4, blocks_bytes(m.blocks@));
    lemma_parts(s, 0, p3, words_bytes(m.pos@));
    lemma_parts(s, 0, p2, words_bytes(m.tok@));
    lemma_parts(s, 0, p1, m.vocab@);
}

/// Loading a written file is not refused, and gives the model back.
#[verifier::spinoff_prover]
pub proof fn law_load_undoes_write(m: LanguageModel)
    requires
        m.shaped(),
    ensures
        file_error(file_bytes(m)) is None,
        m.is_file(file_bytes(m)),
{
    let s = file_bytes(m);
    let (d, f) = (m.config.d_model as nat, m.config.d_ff as nat);
    lemma_file_parts(m);
    lemma_head(m, s);
    let h = header(s);
    lemma_words(s, h.tok_at() as int, m.tok@);
    lemma_words(s, h.pos_at() as int, m.pos@);
    lemma_blocks(s, h.blocks_at() as int, m.blocks@, d, f);
    lemma_norm_len(m.ln_f, d);
    lemma_norm(s, h.ln_f_at() as int, m.ln_f, d);
}

/// A file holds one model: two that it holds have the same sizes, vocabulary and weights.
pub proof fn law_file_holds_one_model(a: LanguageModel, b: LanguageModel, s: Seq<u8>)
    requires
        a.is_file(s),
        b.is_file(s),
    ensures
        a.config == b.config,
        a.vocab@ == b.vocab@,
        a.tok@ == b.tok@,
        a.pos@ == b.pos@,
        a.blocks@.len() == b.blocks@.len(),
        forall|l: int|
            0 <= l < a.blocks@.len() ==> same_block(#[trigger] a.blocks@[l], b.blocks@[l]),
        a.ln_f.weight@ == b.ln_f.weight@ && a.ln_f.bias@ == b.ln_f.bias@,
{
    assert forall|l: int| 0 <= l < a.blocks@.len() implies same_block(
        #[trigger] a.blocks@[l],
        b.blocks@[l],
    ) by {
        let h = header(s);
        assert(b.blocks@[l].is_at(s, h.blocks_at() + l * h.block_size(), h.d_model, h.d_ff));
    }
}

pub open spec fn same_linear(a: Linear, b: Linear) -> bool {
    a.weight@ == b.weight@ && a.bias@ == b.bias@ && a.in_f == b.in_f && a.out_f == b.out_f
}

/// Do two blocks have the same weights?
pub open spec fn same_block(a: Block, b: Block) -> bool {
    &&& a.ln1.weight@ == b.ln1.weight@ && a.ln1.bias@ == b.ln1.bias@
    &&& same_linear(a.wq, b.wq) && same_linear(a.wk, b.wk) && same_linear(a.wv, b.wv)
    &&& same_linear(a.wo, b.wo)
    &&& a.ln2.weight@ == b.ln2.weight@ && a.ln2.bias@ == b.ln2.bias@
    &&& same_linear(a.fc, b.fc) && same_linear(a.proj, b.proj)
}

/// A file of which the end is missing is refused, wherever it is cut.
#[verifier::spinoff_prover]
pub proof fn law_cut_file_is_refused(m: LanguageModel, k: int)
    requires
        m.shaped(),
        0 <= k < file_bytes(m).len(),
    ensures
        file_error(file_bytes(m).take(k)) == Some("truncated weight file"@),
{
    let s = file_bytes(m);
    let t = s.take(k);
    law_load_undoes_write(m);
    if k >= 4 {
        assert(t.take(4) =~= s.take(4));
    }
    assert forall|i: int| 0 <= i && i + 4 <= k implies #[trigger] le32(t, i) == le32(s, i) by {}
    if k >= 32 {
        assert(header(t) == header(s));
    }
}

/// A file with more behind its end is refused, and the message says how much more.
#[verifier::spinoff_prover]
pub proof fn law_longer_file_is_refused(m: LanguageModel, more: Seq<u8>)
    requires
        m.shaped(),
        more.len() > 0,
    ensures
        file_error(file_bytes(m) + more) == Some(
            "trailing "@ + decimal_text(more.len()) + " bytes in weight file"@,
        ),
{
    let s = file_bytes(m);
    let t = s + more;
    law_load_undoes_write(m);
    assert(t.take(4) =~= s.take(4));
    assert forall|i: int| 0 <= i && i + 4 <= s.len() implies #[trigger] le32(t, i) == le32(s, i) by {}
    assert(header(t) == header(s));
}

/// A file that does not start with the four letters is refused.
pub proof fn law_foreign_file_is_refused(s: Seq<u8>)
    requires
        s.len() >= 4,
        !(s[0] == 0x54 && s[1] == 0x47 && s[2] == 0x50 && s[3] == 0x54),
    ensures
        file_error(s) == Some("bad magic"@),
{
    reveal_strlit("TGPT");
    is_ascii_chars_encode_utf8("TGPT"@);
    let word = "TGPT".spec_bytes();
    assert(word[0] == 0x54 && word[1] == 0x47 && word[2] == 0x50 && word[3] == 0x54);
    assert(s.take(4)[0] == s[0] && s.take(4)[1] == s[1] && s.take(4)[2] == s[2] && s.take(4)[3] == s[3]);
}

/// A file with the four letters and the eight words `ws` at its start is refused if the version is
/// not 1, if the heads do not divide the width, and if the two lengths of the vocabulary differ.
pub proof fn law_bad_head_is_refused(ws: Seq<u32>, rest: Seq<u8>)
    requires
        ws.len() == 8,
        ws[3] > 0,
    ensures
        ({
            let error = file_error(
                seq![0x54u8, 0x47u8, 0x50u8, 0x54u8] + words_bytes(ws) + rest,
            );
            &&& ws[0] != 1 ==> error == Some("unsupported version "@ + decimal_text(ws[0] as nat))
            &&& ws[0] == 1 && ws[2] % ws[3] != 0 ==> error == Some(
                "d_model not divisible by n_heads"@,
            )
            &&& ws[0] == 1 && ws[2] % ws[3] == 0 && ws[7] != ws[1] ==> error == Some(
                "vocab length mismatch"@,
            )
        }),
{
    let magic = seq![0x54u8, 0x47u8, 0x50u8, 0x54u8];
    let s = magic + words_bytes(ws) + rest;
    lemma_words_len(ws);
    assert(s.subrange(0, s.len() as int) =~= s);
    lemma_parts(s, 0, magic + words_bytes(ws), rest);
    lemma_parts(s, 0, magic, words_bytes(ws));
    lemma_words(s, 4, ws);
    assert(le32(s, 4int + 4 * 0) == ws[0]);
    assert(le32(s, 4int + 4 * 1) == ws[1]);
    assert(le32(s, 4int + 4 * 2) == ws[2]);
    assert(le32(s, 4int + 4 * 3) == ws[3]);
    assert(le32(s, 4int + 4 * 7) == ws[7]);
    reveal_strlit("TGPT");
    is_ascii_chars_encode_utf8("TGPT"@);
    assert(s.take(4) =~= s.subrange(0, 4));
    assert(magic =~= "TGPT".spec_bytes());
}

} // verus!
