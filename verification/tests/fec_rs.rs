use pcpvpn::fec::rs::{RsDecoder, RsEncoder, RsParity, MAX_SHARD_LEN};

fn encode_group(k: u8, r: u8) -> (Vec<(u32, u8, Vec<u8>)>, Vec<RsParity>) {
    let mut enc = RsEncoder::new(k, r);
    let mut frames = Vec::new();
    let mut parity = Vec::new();
    for i in 0..k as usize {
        let p = vec![i as u8 + 1; 8 + i * 5];
        let (g, idx, par) = enc.push(&p);
        frames.push((g, idx, p));
        parity.extend(par);
    }
    assert_eq!(parity.len(), r as usize, "a closed group yields r parity shards");
    (frames, parity)
}

fn run_decoder(frames: &[(u32, u8, Vec<u8>)], parity: &[RsParity], drop: &[u8]) -> Vec<Vec<u8>> {
    let mut dec = RsDecoder::new(64);
    let mut out = Vec::new();
    for (g, idx, p) in frames {
        if drop.contains(idx) {
            continue;
        }
        out.extend(dec.on_data(*g, *idx, p));
    }
    for q in parity {
        out.extend(dec.on_parity(q.group, q.k, q.r, q.index, &q.shard));
    }
    out
}

#[test]
fn recovers_two_losses_with_two_parity() {
    let (frames, parity) = encode_group(8, 2);
    let recovered = run_decoder(&frames, &parity, &[2, 5]);
    assert_eq!(recovered.len(), 2);
    assert!(recovered.contains(&frames[2].2));
    assert!(recovered.contains(&frames[5].2));
}

#[test]
fn three_losses_with_two_parity_are_unrecoverable() {
    let (frames, parity) = encode_group(8, 2);
    let recovered = run_decoder(&frames, &parity, &[1, 4, 6]);
    assert!(recovered.is_empty(), "must not emit (wrong) data beyond capacity");
}

#[test]
fn single_parity_matches_the_xor_behaviour_it_replaces() {
    let (frames, parity) = encode_group(8, 1);
    let one = run_decoder(&frames, &parity, &[3]);
    assert_eq!(one, vec![frames[3].2.clone()]);

    let (frames, parity) = encode_group(8, 1);
    let two = run_decoder(&frames, &parity, &[3, 4]);
    assert!(two.is_empty());
}

#[test]
fn recovers_with_parity_first_and_data_reordered() {
    let (frames, parity) = encode_group(6, 2);
    let mut dec = RsDecoder::new(64);
    let mut out = Vec::new();
    for q in &parity {
        out.extend(dec.on_parity(q.group, q.k, q.r, q.index, &q.shard));
    }
    for (g, idx, p) in frames.iter().rev() {
        if *idx == 0 || *idx == 5 {
            continue;
        }
        out.extend(dec.on_data(*g, *idx, p));
    }
    assert_eq!(out.len(), 2);
    assert!(out.contains(&frames[0].2));
    assert!(out.contains(&frames[5].2));
}

#[test]
fn no_data_loss_recovers_nothing() {
    let (frames, parity) = encode_group(4, 2);
    let recovered = run_decoder(&frames, &parity[..1], &[]);
    assert!(recovered.is_empty());
}

#[test]
fn rs_flush_closes_a_partial_group_and_recovers() {
    let mut enc = RsEncoder::new(8, 2);
    let mut frames = Vec::new();
    for i in 0..3usize {
        let p = vec![0xA0 + i as u8; 12 + i * 3];
        let (g, idx, par) = enc.push(&p);
        assert!(par.is_empty(), "a partial group must not auto-close");
        frames.push((g, idx, p));
    }
    let parity = enc.flush();
    assert_eq!(parity.len(), 2);
    assert_eq!(parity[0].k, 3, "parity reports the actual member count");

    let recovered = run_decoder(&frames, &parity, &[0, 2]);
    assert_eq!(recovered.len(), 2);
    assert!(recovered.contains(&frames[0].2));
    assert!(recovered.contains(&frames[2].2));
}

#[test]
fn rejects_malformed_or_hostile_headers() {
    let (frames, parity) = encode_group(4, 2);
    let q = &parity[0];
    let mut dec = RsDecoder::new(64);
    for (g, idx, p) in &frames {
        if *idx == 1 {
            continue;
        }
        dec.on_data(*g, *idx, p);
    }
    assert!(dec.on_parity(q.group, 0, 2, 0, &q.shard).is_empty());
    assert!(dec.on_parity(q.group, 4, 0, 0, &q.shard).is_empty());
    assert!(dec.on_parity(q.group, 4, 2, 9, &q.shard).is_empty());
    assert!(dec.on_parity(q.group, 200, 2, 0, &q.shard).is_empty());
    assert!(dec.on_parity(q.group, 4, 2, 0, &[0u8]).is_empty());
    assert!(dec.on_parity(q.group, 4, 2, 0, &vec![0u8; MAX_SHARD_LEN + 1]).is_empty());
    assert!(dec.on_parity(q.group, 4, 2, 0, &[0u8, 0u8]).is_empty());

    assert_eq!(dec.on_parity(q.group, q.k, q.r, q.index, &q.shard), vec![frames[1].2.clone()]);
}

#[test]
fn rejects_shards_disagreeing_with_established_geometry() {
    let (frames, parity) = encode_group(4, 2);
    let mut dec = RsDecoder::new(64);
    for (g, idx, p) in &frames {
        if *idx == 1 {
            continue;
        }
        dec.on_data(*g, *idx, p);
    }
    let q = &parity[0];
    assert_eq!(dec.on_parity(q.group, q.k, q.r, q.index, &q.shard), vec![frames[1].2.clone()]);
    assert!(dec.on_parity(q.group, q.k, q.r, 1, &vec![0u8; q.shard.len() + 7]).is_empty());
}

#[test]
fn old_groups_are_evicted() {
    let mut dec = RsDecoder::new(2);
    for g in 0..5u32 {
        dec.on_data(g, 0, &[1, 2, 3]);
    }
    assert!(dec.group_count() <= 2, "group buffer must stay bounded");
}

#[test]
fn encoder_clamps_its_geometry() {
    let mut enc = RsEncoder::new(0, 0);
    let (g, idx, par) = enc.push(&[1, 2, 3]);
    assert_eq!((g, idx), (0, 0));
    assert_eq!(par.len(), 1);
    assert_eq!((par[0].k, par[0].r, par[0].index), (1, 1, 0));
    assert_eq!(par[0].shard.len(), 5);
    let mut big = RsEncoder::new(255, 255);
    let mut last = Vec::new();
    for i in 0..64u32 {
        let (_, _, p) = big.push(&[i as u8]);
        last = p;
    }
    assert_eq!(last.len(), 16);
    assert_eq!(last[0].k, 64);
}

#[test]
fn data_index_beyond_the_cap_is_ignored() {
    let mut dec = RsDecoder::new(4);
    assert!(dec.on_data(0, 64, &[1]).is_empty());
    assert_eq!(dec.group_count(), 0);
}

#[test]
fn parity_shards_are_two_bytes_longer_than_the_longest_packet() {
    let mut enc = RsEncoder::new(0, 0);
    let (group, index, parity) = enc.push(&[7]);
    assert_eq!((group, index), (0, 0));
    assert_eq!(parity.len(), 1);
    assert_eq!((parity[0].group, parity[0].k, parity[0].r, parity[0].index), (0, 1, 1, 0));
    assert_eq!(parity[0].shard.len(), 3);

    let mut enc = RsEncoder::new(8, 2);
    for i in 0..3usize {
        assert!(enc.push(&vec![0xA0 + i as u8; 12 + 3 * i]).2.is_empty());
    }
    let p = enc.flush();
    assert_eq!(p.len(), 2);
    for (j, q) in p.iter().enumerate() {
        assert_eq!((q.group, q.k, q.r, q.index as usize), (0, 3, 2, j));
        assert_eq!(q.shard.len(), 20);
    }
}

#[test]
fn any_two_losses_are_recovered_with_two_parity_shards() {
    let packets: Vec<Vec<u8>> = (0..8u8).map(|i| vec![i + 1; 10 + i as usize * 3]).collect();
    let mut enc = RsEncoder::new(8, 2);
    let mut parity = Vec::new();
    for p in &packets {
        parity = enc.push(p).2;
    }
    assert_eq!(parity.len(), 2);
    for lost_a in 0..8usize {
        for lost_b in (lost_a + 1)..8 {
            let mut dec = RsDecoder::new(64);
            let mut got = Vec::new();
            for (i, p) in packets.iter().enumerate() {
                if i != lost_a && i != lost_b {
                    got.extend(dec.on_data(0, i as u8, p));
                }
            }
            for q in &parity {
                got.extend(dec.on_parity(q.group, q.k, q.r, q.index, &q.shard));
            }
            assert_eq!(got, vec![packets[lost_a].clone(), packets[lost_b].clone()]);
        }
    }
}

#[test]
fn interleaved_delivery_recovers_only_on_the_last_shard() {
    let (frames, parity) = encode_group(8, 2);
    let mut dec = RsDecoder::new(4);
    let mut results: Vec<Vec<Vec<u8>>> = Vec::new();
    // Lost: packets 2 and 5. Parity shard 1 first, then data in mixed order,
    // parity shard 0 in the middle.
    results.push(dec.on_parity(parity[1].group, parity[1].k, parity[1].r, parity[1].index, &parity[1].shard));
    for idx in [7usize, 0, 3] {
        let (g, i, p) = &frames[idx];
        results.push(dec.on_data(*g, *i, p));
    }
    results.push(dec.on_parity(parity[0].group, parity[0].k, parity[0].r, parity[0].index, &parity[0].shard));
    for idx in [6usize, 1, 4] {
        let (g, i, p) = &frames[idx];
        results.push(dec.on_data(*g, *i, p));
    }
    assert_eq!(results.len(), 8);
    for r in &results[..7] {
        assert!(r.is_empty());
    }
    assert_eq!(results[7], vec![frames[2].2.clone(), frames[5].2.clone()]);
}

#[test]
fn more_losses_than_parity_yield_nothing_even_with_repeats() {
    let (frames, parity) = encode_group(6, 2);
    let mut dec = RsDecoder::new(4);
    for _ in 0..2 {
        for q in &parity {
            assert!(dec.on_parity(q.group, q.k, q.r, q.index, &q.shard).is_empty());
        }
        for (g, idx, p) in &frames {
            if *idx == 0 || *idx == 2 || *idx == 4 {
                continue;
            }
            assert!(dec.on_data(*g, *idx, p).is_empty());
        }
    }
}

#[test]
fn encoder_numbers_packets_by_group_and_index() {
    let mut enc = RsEncoder::new(8, 3);
    for n in 0..20usize {
        let p = vec![n as u8; 4 + n];
        let (g, idx, par) = enc.push(&p);
        assert_eq!(g, (n / 8) as u32);
        assert_eq!(idx, (n % 8) as u8);
        if n % 8 == 7 {
            assert_eq!(par.len(), 3);
            for (j, q) in par.iter().enumerate() {
                assert_eq!(q.group, (n / 8) as u32);
                assert_eq!(q.index, j as u8);
                assert_eq!(q.k, 8);
                assert_eq!(q.r, 3);
                assert_eq!(q.shard.len(), 2 + 4 + n);
            }
        } else {
            assert!(par.is_empty());
        }
    }
}
