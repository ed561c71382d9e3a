use inference_server::generation::Generation;
use inference_server::kv::KvCache;
use inference_server::lm::{LanguageModel, Lcg};

fn word(out: &mut Vec<u8>, n: u32) {
    out.extend_from_slice(&n.to_le_bytes());
}

/// A weight file whose words count up from 0.
fn file(vocab: &[u8], d: u32, heads: u32, layers: u32, ff: u32, max_len: u32) -> Vec<u8> {
    let mut out: Vec<u8> = b"TGPT".to_vec();
    for n in [1, vocab.len() as u32, d, heads, layers, ff, max_len, vocab.len() as u32] {
        word(&mut out, n);
    }
    out.extend_from_slice(vocab);
    let block = 4 * d + 4 * (d * d + d) + (d * ff + ff) + (ff * d + d);
    let words = vocab.len() as u32 * d + max_len * d + layers * block + 2 * d;
    for n in 0..words {
        word(&mut out, n);
    }
    out
}

fn alphabet() -> Vec<u8> {
    let mut vocab: Vec<u8> = (b'a'..=b'z').collect();
    vocab.push(b' ');
    vocab
}

fn complaint(bytes: &[u8]) -> String {
    match LanguageModel::load_bytes(bytes) {
        Ok(_) => panic!("the file was accepted"),
        Err(message) => message,
    }
}

#[test]
fn loads_a_file_of_the_usual_shape() {
    let lm = LanguageModel::load_bytes(&file(&alphabet(), 32, 4, 2, 128, 64)).unwrap();
    assert_eq!(lm.config.d_model, 32);
    assert_eq!(lm.config.n_layers, 2);
    assert!(lm.vocab.len() >= 26);
    assert_eq!(lm.config.n_heads, 4);
    assert_eq!(lm.config.d_ff, 128);
    assert_eq!(lm.config.max_len, 64);
    assert_eq!(lm.blocks.len(), 2);
}

#[test]
fn words_come_in_file_order() {
    let lm = LanguageModel::load_bytes(&file(b"ab", 2, 1, 1, 3, 2)).unwrap();
    assert_eq!(lm.tok, vec![0, 1, 2, 3]);
    assert_eq!(lm.pos, vec![4, 5, 6, 7]);
    let block = &lm.blocks[0];
    assert_eq!(block.ln1.weight, vec![8, 9]);
    assert_eq!(block.ln1.bias, vec![10, 11]);
    assert_eq!(block.wq.weight, vec![12, 13, 14, 15]);
    assert_eq!(block.wq.bias, vec![16, 17]);
    assert_eq!(block.wk.weight[0], 18);
    assert_eq!(block.wv.weight[0], 24);
    assert_eq!(block.wo.weight[0], 30);
    assert_eq!(block.ln2.weight, vec![36, 37]);
    assert_eq!(block.fc.weight, vec![40, 41, 42, 43, 44, 45]);
    assert_eq!(block.fc.bias, vec![46, 47, 48]);
    assert_eq!((block.fc.in_f, block.fc.out_f), (2, 3));
    assert_eq!(block.proj.weight, vec![49, 50, 51, 52, 53, 54]);
    assert_eq!(block.proj.bias, vec![55, 56]);
    assert_eq!((block.proj.in_f, block.proj.out_f), (3, 2));
    assert_eq!(lm.ln_f.weight, vec![57, 58]);
    assert_eq!(lm.ln_f.bias, vec![59, 60]);
}

#[test]
fn every_fault_of_a_file() {
    let good = file(b"ab", 2, 1, 1, 3, 2);
    assert_eq!(complaint(b"TGP"), "truncated weight file");
    assert_eq!(complaint(b"TGPU"), "bad magic");
    assert_eq!(complaint(b"TGPT\x01"), "truncated weight file");
    assert_eq!(complaint(b"TGPT\x02\x00\x00\x00"), "unsupported version 2");
    assert_eq!(complaint(&good[..20]), "truncated weight file");
    assert_eq!(complaint(&file(b"ab", 3, 2, 1, 3, 2)), "d_model not divisible by n_heads");
    let mut other = good.clone();
    other[32] = 3;
    assert_eq!(complaint(&other), "vocab length mismatch");
    for n in 36..good.len() {
        assert_eq!(complaint(&good[..n]), "truncated weight file");
    }
    let mut longer = good.clone();
    longer.extend_from_slice(b"12345");
    assert_eq!(complaint(&longer), "trailing 5 bytes in weight file");
    let mut huge = good.clone();
    for b in huge[8..16].iter_mut() {
        *b = 0xff;
    }
    for b in huge[32..36].iter_mut() {
        *b = 0xff;
    }
    assert_eq!(complaint(&huge), "truncated weight file");
}

#[test]
fn encodes_byte_by_byte() {
    let lm = LanguageModel::load_bytes(&file(b"ab c", 1, 1, 0, 1, 4)).unwrap();
    assert_eq!(lm.encode("abc"), vec![0, 1, 3]);
    assert_eq!(lm.encode("a-\u{e9}"), vec![0, 2, 2, 2]);
    assert_eq!(lm.encode(""), vec![0]);
    let bare = LanguageModel::load_bytes(&file(b"ab", 1, 1, 0, 1, 4)).unwrap();
    assert_eq!(bare.encode("b?a"), vec![1, 0]);
    assert_eq!(bare.encode("??"), vec![0]);
}

#[test]
fn decoding_undoes_encoding() {
    let lm = LanguageModel::load_bytes(&file(&alphabet(), 1, 1, 0, 1, 4)).unwrap();
    let text = "the quick brown fox";
    let bytes: Vec<u8> = lm.encode(text).iter().map(|&id| lm.decode_byte(id)).collect();
    assert_eq!(bytes, text.as_bytes());
    assert_eq!(lm.decode_byte(1000), b' ');
}

#[test]
fn embeddings_are_rows() {
    let lm = LanguageModel::load_bytes(&file(b"abc", 2, 1, 0, 1, 2)).unwrap();
    assert_eq!(lm.emb_tok(1), &[2, 3]);
    assert_eq!(lm.emb_pos(0), &[6, 7]);
    assert_eq!(lm.emb_pos(3), &[8, 9]);
    assert_eq!(lm.context(&[0, 1, 2]), &[1, 2]);
    assert_eq!(lm.context(&[2]), &[2]);
}

#[test]
fn the_generator_is_reproducible() {
    let mut a = Lcg::new(1);
    assert_eq!(a.next_u64(), 6364136223846793006);
    assert_eq!(a.next_u64(), 6364136223846793006u64.wrapping_mul(6364136223846793005).wrapping_add(1));
    let mut b = Lcg::new(0);
    let mut c = Lcg::new(1);
    for _ in 0..100u32 {
        let (x, y) = (b.next_fraction(), c.next_fraction());
        assert_eq!(x, y);
        assert!(x < 1u64 << 53);
    }
    assert_eq!(Lcg::new(1).next_fraction(), 6364136223846793006 >> 11);
}

#[test]
fn the_cache_keeps_rows_by_head() {
    let (nh, dk) = (2, 2);
    let mut cache: KvCache<u32> = KvCache::default();
    cache.append(&[1, 2, 3, 4], &[10, 20, 30, 40], nh, dk, 1);
    assert_eq!(cache.k, vec![1, 2, 3, 4]);
    cache.append(&[5, 6, 7, 8], &[50, 60, 70, 80], nh, dk, 1);
    assert_eq!(cache.seq, 2);
    assert_eq!(cache.k, vec![1, 2, 5, 6, 3, 4, 7, 8]);
    assert_eq!(cache.v, vec![10, 20, 50, 60, 30, 40, 70, 80]);
    assert_eq!(cache.key(nh, dk, 1, 0), &[3, 4]);
    assert_eq!(cache.value(nh, dk, 1, 1), &[70, 80]);
    let mut at_once: KvCache<u32> = KvCache::default();
    at_once.append(&[1, 2, 3, 4, 5, 6, 7, 8], &[10, 20, 30, 40, 50, 60, 70, 80], nh, dk, 2);
    assert_eq!(at_once.k, cache.k);
    assert_eq!(at_once.v, cache.v);
}

#[test]
fn a_generation_spells_its_tokens() {
    let lm = LanguageModel::load_bytes(&file(&alphabet(), 1, 1, 0, 1, 4)).unwrap();
    let mut g = Generation::new(&lm, "hello", 3);
    assert_eq!(g.ids, lm.encode("ello"));
    let mut runs: usize = 0;
    while g.wants_token() {
        g.take(&lm, 2 + runs);
        runs += 1;
    }
    assert_eq!(runs, 3);
    assert_eq!(g.text, "cde");
    assert_eq!(g.ids, lm.encode("ellocde"));
    assert!(!Generation::new(&lm, "the ", 0).wants_token());
}
