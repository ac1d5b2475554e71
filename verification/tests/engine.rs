use intformer::attention::Attention;
use intformer::block::Block;
use intformer::embedding::Embedding;
use intformer::layernorm::LayerNorm;
use intformer::mlp::MLP;
use intformer::model::Model;
use intformer::unembedding::Unembedding;
use intformer::EngineError;

fn zero_table() -> Vec<u32> {
    vec![0u32; 1024]
}

// a strictly decreasing exponential-style table, all entries positive
fn dec_table() -> Vec<u32> {
    (0..1024u32).map(|k| 2048 - 2 * k).collect()
}

fn head_grids(byte: u8) -> Vec<Vec<Vec<u8>>> {
    vec![vec![vec![byte; 240]; 48]; 5]
}

fn attention_of(byte: u8, table: Vec<u32>) -> Attention {
    Attention::new(
        &head_grids(byte),
        &head_grids(byte),
        &head_grids(byte),
        &vec![vec![byte; 240]; 240],
        table,
    )
}

fn block_of(byte: u8, table: Vec<u32>) -> Block {
    Block::new(
        LayerNorm::new(&vec![0x400000u32; 240]),
        attention_of(byte, table),
        LayerNorm::new(&vec![0x400000u32; 240]),
        MLP::new(&vec![vec![0u8; 240]; 960], &vec![vec![0u8; 960]; 240]),
    )
}

fn model_of(byte: u8, table: Vec<u32>) -> Model {
    let mut wte = vec![vec![0u32; 240]; 1920];
    wte[1] = vec![0x1000u32; 240];
    wte[2] = vec![0x2000u32; 240];
    let wpe = vec![vec![0u32; 240]; 64];
    Model::new(
        Embedding::new(&wte, &wpe),
        (0..6).map(|_| block_of(byte, table.clone())).collect(),
        LayerNorm::new(&vec![0x400000u32; 240]),
        Unembedding::new(&vec![vec![byte; 240]; 1920], table),
    )
}

#[test]
fn embedding_sign_extends_stored_rows() {
    let mut wte = vec![vec![0u32; 240]; 1920];
    wte[0][0] = 0x20000;
    wte[0][1] = 0x1FFFF;
    wte[0][2] = 0xFFFFFF;
    let e = Embedding::new(&wte, &vec![vec![0u32; 240]; 64]);
    let row = e.get_weights(0, None).unwrap();
    assert_eq!(row[0], 0xFE0000);
    assert_eq!(row[1], 0x1FFFF);
    assert_eq!(row[2], 0xFFFFFF);
    assert_eq!(row[3], 0);
}

#[test]
fn embedding_position_add_wraps() {
    let mut wte = vec![vec![0u32; 240]; 1920];
    wte[0][0] = 0xFFFFFF;
    let mut wpe = vec![vec![0u32; 240]; 64];
    wpe[3][0] = 1;
    let e = Embedding::new(&wte, &wpe);
    let row = e.get_weights(0, Some(3)).unwrap();
    assert_eq!(row[0], 0);
    // the clamped last row is still in range
    assert!(e.get_weights(0, Some(63)).is_ok());
}

#[test]
fn embedding_rejects_out_of_range() {
    let e = Embedding::new(&vec![vec![0u32; 240]; 1920], &vec![vec![0u32; 240]; 64]);
    assert_eq!(e.get_weights(1920, None), Err(EngineError::TokenOutOfRange));
    assert_eq!(
        e.get_weights(5, Some(64)),
        Err(EngineError::PositionOutOfRange)
    );
}

#[test]
fn attention_encodes_compact_floats() {
    let att = attention_of(0, zero_table());
    assert_eq!(att.to_float16(0x40000, 0), 0x6C00);
    assert_eq!(att.to_float16(0x40000, 4), 0x5C00);
    assert_eq!(att.to_float16(0, 0), 0);
}

#[test]
fn attention_caches_grow_once_per_forward_in_every_head() {
    let mut att = attention_of(0, zero_table());
    for h in 0..5 {
        assert_eq!(att.head_cache_len(h), 0);
    }
    let input = vec![0u32; 240];
    att.forward(&input).unwrap();
    for h in 0..5 {
        assert_eq!(att.head_cache_len(h), 1);
    }
    att.forward(&input).unwrap();
    assert_eq!(att.cache_len(), 2);
    att.undo_last();
    assert_eq!(att.cache_len(), 1);
    att.undo_last();
    assert_eq!(att.cache_len(), 0);
    // undoing past empty is a no-op
    att.undo_last();
    assert_eq!(att.cache_len(), 0);
}

#[test]
fn attention_rejects_forward_when_cache_full() {
    let mut att = attention_of(0, zero_table());
    for h in 0..5 {
        for _ in 0..1024 {
            att.k_cache[h].push(vec![0u16; 48]);
            att.v_cache[h].push(vec![0u16; 48]);
        }
    }
    assert_eq!(att.cache_len(), 1024);
    let input = vec![0u32; 240];
    assert_eq!(att.forward(&input), Err(EngineError::CacheFull));
    assert_eq!(att.cache_len(), 1024);
}

#[test]
fn attention_redo_after_undo_is_byte_identical() {
    let mut att = attention_of(9, dec_table());
    let x = vec![0x2000u32; 240];
    let y = vec![0x1000u32; 240];
    att.forward(&x).unwrap();
    let r2 = att.forward(&y).unwrap();
    att.undo_last();
    let r2_again = att.forward(&y).unwrap();
    assert_eq!(r2, r2_again);
    assert_eq!(att.cache_len(), 2);
}

#[test]
fn block_with_zero_weights_keeps_state() {
    // zero layer weights make both residual deltas zero, so the state
    // vector must come back unchanged
    let mut b = Block::new(
        LayerNorm::new(&vec![0u32; 240]),
        attention_of(0, zero_table()),
        LayerNorm::new(&vec![0u32; 240]),
        MLP::new(&vec![vec![0u8; 240]; 960], &vec![vec![0u8; 960]; 240]),
    );
    let mut v: Vec<u32> = (0..240u32).map(|i| (i * 0x1234) & 0xFFFFFF).collect();
    let before = v.clone();
    b.forward(&mut v).unwrap();
    assert_eq!(v, before);
    assert_eq!(b.cache_len(), 1);
}

#[test]
fn unembedding_unique_maximum_comes_first() {
    // one vocabulary row carries the strongest weight on the one hot
    // input channel, so its combined score must lead the top-8
    let mut weights = vec![vec![0u8; 240]; 1920];
    weights[5][0] = 127;
    let u = Unembedding::new(&weights, dec_table());
    let mut input = vec![0u32; 240];
    input[0] = 0x40000;
    let out = u.forward(&input);
    assert_eq!(out.len(), 8);
    assert_eq!(out[0] & 2047, 5);
    assert!(out[0] >> 11 > out[1] >> 11);
    for i in 0..7 {
        assert!(out[i] >= out[i + 1]);
    }
}

#[test]
fn unembedding_zero_probabilities_order_by_token_id() {
    // with an all-zero table every probability is zero and the combined
    // score is the token id itself, so the eight largest ids win
    let u = Unembedding::new(&vec![vec![0u8; 240]; 1920], zero_table());
    let out = u.forward(&vec![0u32; 240]);
    let expected: Vec<u64> = (0..8).map(|i| 1919 - i).collect();
    assert_eq!(out, expected);
}

#[test]
fn model_first_token_from_fresh_state() {
    let mut m = model_of(0, zero_table());
    assert_eq!(m.position(), 0);
    for k in 0..6 {
        assert_eq!(m.block_cache_len(k), 0);
    }
    let ans = m.process(1).unwrap();
    assert_eq!(ans.len(), 8);
    assert_eq!(m.position(), 1);
    for k in 0..6 {
        assert_eq!(m.block_cache_len(k), 1);
    }
}

#[test]
fn model_rejects_token_out_of_vocabulary() {
    let mut m = model_of(0, zero_table());
    assert_eq!(m.process(1920), Err(EngineError::TokenOutOfRange));
    assert_eq!(m.position(), 0);
}

#[test]
fn model_rejects_processing_past_cache_limit() {
    let mut m = model_of(0, zero_table());
    for k in 0..6 {
        for h in 0..5 {
            for _ in 0..1024 {
                m.transformer[k].att.k_cache[h].push(vec![0u16; 48]);
                m.transformer[k].att.v_cache[h].push(vec![0u16; 48]);
            }
        }
    }
    m.index = 1024;
    assert_eq!(m.process(1), Err(EngineError::CacheFull));
    assert_eq!(m.position(), 1024);
}

#[test]
fn model_undo_then_redo_is_byte_identical() {
    let mut m = model_of(9, dec_table());
    let first = m.process(1).unwrap();
    m.undo_last();
    assert_eq!(m.position(), 0);
    for k in 0..6 {
        assert_eq!(m.block_cache_len(k), 0);
    }
    let again = m.process(1).unwrap();
    assert_eq!(first, again);
    assert_eq!(m.position(), 1);
}
