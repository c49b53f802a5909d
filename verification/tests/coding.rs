use wfb_ng::gf_tables::init_fec;
use wfb_ng::zfex::{
    aligned_size, fec_decode_simd, fec_encode_simd, fec_free, fec_new, zfex_opt, Block, Fec, SimdKind,
    ZfexStatusCode,
};

fn block(data: Vec<u8>) -> Block {
    Block { addr: 0, data }
}

fn pattern(seed: usize, len: usize) -> Vec<u8> {
    let mut x = seed as u32 * 2654435761 + 12345;
    let mut out = Vec::new();
    for _ in 0..len {
        x = x.wrapping_mul(1664525).wrapping_add(1013904223);
        out.push((x >> 24) as u8);
    }
    out
}

fn encode(code: &Fec, data: &[Block], size: usize) -> Vec<Block> {
    let mut checks = Vec::new();
    for _ in code.k..code.n {
        checks.push(block(vec![0u8; size]));
    }
    let ins: Vec<&Block> = data.iter().collect();
    let rc = fec_encode_simd(code, &ins, &mut checks, size);
    assert_eq!(rc, ZfexStatusCode::Success);
    checks
}

#[test]
fn field_tables_hold_known_products() {
    let t = init_fec();
    assert_eq!(t.gf_mul(2, 128), 29);
    assert_eq!(t.gf_mul(3, 128), 0x9d);
    assert_eq!(t.gf_mul(0, 77), 0);
    assert_eq!(t.gf_mul(77, 1), 77);
    assert_eq!(t.inverse_of(0), 0);
    assert_eq!(t.inverse_of(1), 1);
    for x in 1..=255u8 {
        assert_eq!(t.gf_mul(x, t.inverse_of(x)), 1);
    }
    assert_eq!(t.exp[8], 29);
    assert_eq!(t.exp[255], 1);
    assert_eq!(t.log[0], 255);
    assert_eq!(t.log[29], 8);
}

#[test]
fn code_parameters_are_checked() {
    let bad = [(0u16, 1u16), (1, 0), (3, 2), (1, 256), (300, 400), (0, 0)];
    for (k, n) in bad {
        assert!(matches!(fec_new(k, n), Err(ZfexStatusCode::NullPointerInput)));
    }
    for (k, n) in [(1u16, 1u16), (8, 12), (255, 255), (1, 255)] {
        let code = fec_new(k, n).ok().unwrap();
        assert_eq!((code.k, code.n), (k, n));
        assert_eq!(code.enc_matrix.len(), k as usize * n as usize);
    }
}

#[test]
fn weights_of_a_small_code() {
    let code = fec_new(2, 3).ok().unwrap();
    assert_eq!(code.enc_matrix, vec![1, 0, 0, 1, 3, 2]);
    let one = fec_new(1, 3).ok().unwrap();
    assert_eq!(one.enc_matrix, vec![1, 1, 1]);
}

#[test]
fn check_bytes_of_a_small_code() {
    let code = fec_new(2, 3).ok().unwrap();
    let data = vec![block(vec![1, 0x80, 0, 5]), block(vec![1, 0, 0x80, 7])];
    let checks = encode(&code, &data, 4);
    // 3 * a + 2 * b
    assert_eq!(checks[0].data, vec![1, 0x9d, 29, 15 ^ 14]);
}

#[test]
fn last_blocks_rebuilt_from_all_check_blocks() {
    let (k, n, size) = (8usize, 12usize, 4095usize);
    let code = fec_new(k as u16, n as u16).ok().unwrap();
    let room = aligned_size(size, 16);
    let mut blocks: Vec<Block> = (0..k).map(|i| block(vec![i as u8; room])).collect();
    blocks.extend(encode(&code, &blocks, size).into_iter().map(|b| {
        let mut data = b.data;
        data.resize(room, 0);
        block(data)
    }));
    let mut ins: Vec<&Block> = Vec::new();
    let mut index: Vec<u32> = Vec::new();
    for i in 0..k {
        let from = if i < 2 * k - n { i } else { i + n - k };
        ins.push(&blocks[from]);
        index.push(from as u32);
    }
    let mut outs: Vec<Block> = (0..n - k).map(|_| block(vec![0u8; room])).collect();
    let rc = fec_decode_simd(&code, &mut ins, &mut outs, &mut index, size);
    assert_eq!(rc, ZfexStatusCode::Success);
    for (o, out) in outs.iter().enumerate() {
        assert!(out.data[..size].iter().all(|b| *b == (2 * k - n + o) as u8));
        assert_eq!(out.data[size..], vec![0u8; room - size]);
    }
}

#[test]
fn any_four_of_seven_blocks_suffice() {
    let (k, n, size) = (4usize, 7usize, 100usize);
    let code = fec_new(k as u16, n as u16).ok().unwrap();
    let data: Vec<Block> = (0..k).map(|i| block(pattern(i, size))).collect();
    let mut all: Vec<Block> = data.clone();
    all.extend(encode(&code, &data, size));
    for a in 0..n {
        for b in 0..n {
            for c in 0..n {
                for d in 0..n {
                    let pick = [a, b, c, d];
                    let mut seen = vec![false; n];
                    for p in pick {
                        seen[p] = true;
                    }
                    if seen.iter().filter(|s| **s).count() != k {
                        continue;
                    }
                    let mut ins: Vec<&Block> = pick.iter().map(|p| &all[*p]).collect();
                    let mut index: Vec<u32> = pick.iter().map(|p| *p as u32).collect();
                    let mut outs: Vec<Block> = (0..k).map(|_| block(vec![9u8; size])).collect();
                    let rc = fec_decode_simd(&code, &mut ins, &mut outs, &mut index, size);
                    assert_eq!(rc, ZfexStatusCode::Success);
                    let mut o = 0;
                    for row in 0..k {
                        if index[row] < k as u32 {
                            assert_eq!(index[row], row as u32);
                            assert_eq!(ins[row].data, data[row].data);
                        } else {
                            assert_eq!(outs[o].data, data[row].data);
                            o += 1;
                        }
                    }
                }
            }
        }
    }
}

#[test]
fn long_blocks_are_encoded_in_full() {
    let (k, n, size) = (3usize, 5usize, 2 * 8192 + 5);
    let code = fec_new(k as u16, n as u16).ok().unwrap();
    let data: Vec<Block> = (0..k).map(|i| block(pattern(i + 40, size))).collect();
    let checks = encode(&code, &data, size);
    let mut ins: Vec<&Block> = vec![&checks[1], &data[1], &checks[0]];
    let mut index: Vec<u32> = vec![4, 1, 3];
    let mut outs: Vec<Block> = vec![block(vec![0u8; size]), block(vec![0u8; size])];
    let rc = fec_decode_simd(&code, &mut ins, &mut outs, &mut index, size);
    assert_eq!(rc, ZfexStatusCode::Success);
    assert_eq!(outs[0].data, data[0].data);
    assert_eq!(outs[1].data, data[2].data);
}

#[test]
fn bytes_behind_the_size_stay() {
    let code = fec_new(2, 3).ok().unwrap();
    let data = vec![block(vec![1; 8]), block(vec![2; 8])];
    let ins: Vec<&Block> = data.iter().collect();
    let mut checks = vec![block(vec![0xee; 8])];
    fec_encode_simd(&code, &ins, &mut checks, 5);
    assert_eq!(checks[0].data[5..], [0xee, 0xee, 0xee]);
}

#[test]
fn misaligned_blocks_are_refused() {
    let code = fec_new(2, 3).ok().unwrap();
    let good = block(vec![1; 16]);
    let odd = Block { addr: 8, data: vec![1; 16] };
    let mut checks = vec![block(vec![7; 16])];
    let rc = fec_encode_simd(&code, &vec![&good, &odd], &mut checks, 16);
    assert_eq!(rc, ZfexStatusCode::BadInputBlockAlignment);
    assert_eq!(checks[0].data, vec![7; 16]);
    let mut odd_checks = vec![Block { addr: 4, data: vec![7; 16] }];
    let rc = fec_encode_simd(&code, &vec![&good, &good], &mut odd_checks, 16);
    assert_eq!(rc, ZfexStatusCode::BadOutputBlockAlignment);
    assert_eq!(odd_checks[0].data, vec![7; 16]);

    let mut outs = vec![block(vec![7; 16])];
    let rc = fec_decode_simd(&code, &mut vec![&good, &odd], &mut outs, &mut vec![0, 2], 16);
    assert_eq!(rc, ZfexStatusCode::BadInputBlockAlignment);
    let mut odd_outs = vec![Block { addr: 1, data: vec![7; 16] }];
    let rc = fec_decode_simd(&code, &mut vec![&good, &good], &mut odd_outs, &mut vec![0, 2], 16);
    assert_eq!(rc, ZfexStatusCode::BadOutputBlockAlignment);
    assert_eq!(odd_outs[0].data, vec![7; 16]);
}

#[test]
fn repeated_data_index_is_refused() {
    let code = fec_new(3, 5).ok().unwrap();
    let b = block(vec![1; 16]);
    let mut outs: Vec<Block> = Vec::new();
    let mut index = vec![1u32, 1, 0];
    let rc = fec_decode_simd(&code, &mut vec![&b, &b, &b], &mut outs, &mut index, 16);
    assert_eq!(rc, ZfexStatusCode::DecodeInvalidBlockIndex);
}

#[test]
fn data_blocks_out_of_order_are_put_in_order() {
    let code = fec_new(3, 4).ok().unwrap();
    let a = block(vec![1; 16]);
    let b = block(vec![2; 16]);
    let c = block(vec![3; 16]);
    let mut ins = vec![&c, &a, &b];
    let mut index = vec![2u32, 0, 1];
    let mut outs: Vec<Block> = Vec::new();
    let rc = fec_decode_simd(&code, &mut ins, &mut outs, &mut index, 16);
    assert_eq!(rc, ZfexStatusCode::Success);
    assert_eq!(index, vec![0, 1, 2]);
    assert_eq!(ins[0].data[0], 1);
    assert_eq!(ins[1].data[0], 2);
    assert_eq!(ins[2].data[0], 3);
}

#[test]
fn unaligned_and_aligned_kernels_agree() {
    let code = fec_new(3, 4).ok().unwrap();
    let data: Vec<Block> = (0..3).map(|i| block(pattern(i + 7, 37))).collect();
    // 37 bytes take the wide kernel with a tail, five the narrow one.
    let wide = encode(&code, &data, 37);
    let narrow = encode(&code, &data, 5);
    assert_eq!(wide[0].data[..5], narrow[0].data[..]);
}

#[test]
fn sizes_are_rounded_up() {
    assert_eq!(aligned_size(0, 16), 0);
    assert_eq!(aligned_size(1, 16), 16);
    assert_eq!(aligned_size(16, 16), 16);
    assert_eq!(aligned_size(3996, 16), 4000);
    assert_eq!(aligned_size(4000, 16), 4000);
    assert_eq!(aligned_size(65, 64), 128);
    assert_eq!(aligned_size(7, 1), 7);
}

#[test]
fn instruction_sets_have_names() {
    assert_eq!(zfex_opt(SimdKind::Ssse3), "SSSE3");
    assert_eq!(zfex_opt(SimdKind::Neon), "NEON");
    assert_eq!(zfex_opt(SimdKind::NoAccel), "noaccel");
    assert_eq!(fec_free(fec_new(1, 2).ok().unwrap()), ZfexStatusCode::Success);
}

#[test]
fn every_check_block_depends_on_every_data_block() {
    for (k, n) in [(1u16, 4u16), (3, 9), (8, 12), (30, 255)] {
        let code = fec_new(k, n).ok().unwrap();
        let k = k as usize;
        assert!(code.enc_matrix[k * k..].iter().all(|w| *w != 0));
    }
}
