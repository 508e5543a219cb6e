use pcpvpn::fec::xor::{Parity, XorDecoder, XorEncoder};

fn encode_group(n: usize) -> (Vec<(u32, u8, Vec<u8>)>, Parity) {
    let mut enc = XorEncoder::new(n as u8);
    let mut frames = Vec::new();
    let mut parity = None;
    for i in 0..n {
        let p = vec![i as u8 + 1; 8 + i * 5];
        let (g, idx, par) = enc.push(&p);
        frames.push((g, idx, p));
        if let Some(x) = par {
            parity = Some(x);
        }
    }
    (frames, parity.expect("full group yields parity"))
}

#[test]
fn recovers_a_single_middle_loss() {
    let (frames, parity) = encode_group(8);
    let lost = 3u8;
    let mut dec = XorDecoder::new(64);
    let mut recovered = None;
    for (g, idx, p) in &frames {
        if *idx == lost {
            continue;
        }
        if let Some(r) = dec.on_data(*g, *idx, p) {
            recovered = Some(r);
        }
    }
    if let Some(r) = dec.on_parity(parity.group, parity.k, &parity.payload) {
        recovered = Some(r);
    }
    assert_eq!(recovered.unwrap(), frames[lost as usize].2);
}

#[test]
fn recovers_when_parity_arrives_first_and_reordered() {
    let (frames, parity) = encode_group(6);
    let lost = 5u8;
    let mut dec = XorDecoder::new(64);
    let mut recovered = dec.on_parity(parity.group, parity.k, &parity.payload);
    for (g, idx, p) in frames.iter().rev() {
        if *idx == lost {
            continue;
        }
        if let Some(r) = dec.on_data(*g, *idx, p) {
            recovered = Some(r);
        }
    }
    assert_eq!(recovered.unwrap(), frames[lost as usize].2);
}

#[test]
fn two_losses_are_unrecoverable() {
    let (frames, parity) = encode_group(8);
    let mut dec = XorDecoder::new(64);
    let mut recovered = None;
    for (g, idx, p) in &frames {
        if *idx == 2 || *idx == 5 {
            continue;
        }
        if let Some(r) = dec.on_data(*g, *idx, p) {
            recovered = Some(r);
        }
    }
    if let Some(r) = dec.on_parity(parity.group, parity.k, &parity.payload) {
        recovered = Some(r);
    }
    assert!(recovered.is_none(), "two losses must not yield (wrong) data");
}

#[test]
fn xor_flush_closes_a_partial_group_and_recovers() {
    let mut enc = XorEncoder::new(8);
    let mut frames = Vec::new();
    for i in 0..3 {
        let p = vec![0xA0 + i as u8; 12 + i * 2];
        let (g, idx, par) = enc.push(&p);
        assert!(par.is_none(), "partial group should not auto-close");
        frames.push((g, idx, p));
    }
    let parity = enc.flush().expect("flush closes the partial group");
    assert_eq!(parity.k, 3);

    let mut dec = XorDecoder::new(64);
    let mut recovered = None;
    for (g, idx, p) in &frames {
        if *idx == 1 {
            continue;
        }
        if let Some(r) = dec.on_data(*g, *idx, p) {
            recovered = Some(r);
        }
    }
    if let Some(r) = dec.on_parity(parity.group, parity.k, &parity.payload) {
        recovered = Some(r);
    }
    assert_eq!(recovered.unwrap(), frames[1].2);
}

#[test]
fn no_loss_recovers_nothing() {
    let (frames, parity) = encode_group(4);
    let mut dec = XorDecoder::new(64);
    let mut recovered = None;
    for (g, idx, p) in &frames {
        if let Some(r) = dec.on_data(*g, *idx, p) {
            recovered = Some(r);
        }
    }
    if let Some(r) = dec.on_parity(parity.group, parity.k, &parity.payload) {
        recovered = Some(r);
    }
    assert!(recovered.is_none());
}

#[test]
fn parity_is_the_xor_of_length_prefixed_members() {
    let mut enc = XorEncoder::new(2);
    let (_, _, p1) = enc.push(&[0x01, 0x02]);
    assert!(p1.is_none());
    let (g, idx, p2) = enc.push(&[0x10]);
    assert_eq!((g, idx), (0, 1));
    let p = p2.unwrap();
    // [0,2,1,2] ^ [0,1,0x10,0] = [0,3,0x11,2]
    assert_eq!(p.payload, vec![0x00, 0x03, 0x11, 0x02]);
    assert_eq!(p.k, 2);
    assert_eq!(p.group, 0);
    let (g2, idx2, _) = enc.push(&[7]);
    assert_eq!((g2, idx2), (1, 0));
}

#[test]
fn old_xor_groups_are_evicted_and_a_finished_group_stays_finished() {
    let mut dec = XorDecoder::new(2);
    for g in 0..5u32 {
        assert!(dec.on_data(g, 0, &[1, 2, 3]).is_none());
    }
    assert_eq!(dec.group_count(), 2);
    // group 4: k = 1 with the only member present -> finished, nothing recovered
    assert!(dec.on_parity(4, 1, &[0, 3, 1, 2, 3]).is_none());
    assert!(dec.on_data(4, 1, &[9]).is_none());
}

#[test]
fn interleaved_delivery_recovers_only_on_the_last_call() {
    let (frames, parity) = encode_group(5);
    let mut dec = XorDecoder::new(4);
    // Packet 1 is lost; the parity arrives between data packets.
    assert_eq!(dec.on_data(frames[4].0, frames[4].1, &frames[4].2), None);
    assert_eq!(dec.on_data(frames[0].0, frames[0].1, &frames[0].2), None);
    assert_eq!(dec.on_parity(parity.group, parity.k, &parity.payload), None);
    assert_eq!(dec.on_data(frames[3].0, frames[3].1, &frames[3].2), None);
    assert_eq!(dec.on_data(frames[2].0, frames[2].1, &frames[2].2), Some(frames[1].2.clone()));
}

#[test]
fn many_losses_yield_nothing_even_with_repeats() {
    let (frames, parity) = encode_group(5);
    let mut dec = XorDecoder::new(4);
    for _ in 0..2 {
        assert_eq!(dec.on_parity(parity.group, parity.k, &parity.payload), None);
        for (g, idx, p) in &frames {
            if *idx == 1 || *idx == 3 {
                continue;
            }
            assert_eq!(dec.on_data(*g, *idx, p), None);
        }
    }
}
