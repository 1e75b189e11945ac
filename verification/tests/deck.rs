use xoofff::Xoofff;

fn pattern(n: usize, a: u8, b: u8) -> Vec<u8> {
    let mut v = vec![0u8; n];
    for i in 0..n {
        v[i] = a.wrapping_mul(i as u8).wrapping_add(b);
    }
    v
}

fn unhex(s: &str) -> Vec<u8> {
    let digits: Vec<u8> = s
        .bytes()
        .map(|c| match c {
            b'0'..=b'9' => c - b'0',
            b'a'..=b'f' => c - b'a' + 10,
            _ => panic!("not a hex digit"),
        })
        .collect();
    assert!(digits.len() % 2 == 0);
    let mut out = vec![0u8; digits.len() / 2];
    for i in 0..out.len() {
        out[i] = digits[2 * i] * 16 + digits[2 * i + 1];
    }
    out
}

fn oneshot(key: &[u8], msg: &[u8], ds: u8, width: usize, offset: usize, n: usize) -> Vec<u8> {
    let mut out = vec![0u8; n];
    let mut deck = Xoofff::new(key);
    deck.absorb(msg);
    deck.finalize(ds, width, offset);
    deck.squeeze(&mut out);
    out
}

fn incremental(key: &[u8], msg: &[u8], ds: u8, width: usize, offset: usize, n: usize) -> Vec<u8> {
    let mut out = vec![0u8; n];
    let mut deck = Xoofff::new(key);

    let mut off = 0;
    while off < msg.len() {
        let want = if msg[off] == 0 { 1 } else { msg[off] as usize };
        let len = if want < msg.len() - off { want } else { msg.len() - off };
        deck.absorb(&msg[off..off + len]);
        off += len;
    }
    deck.finalize(ds, width, offset);

    let mut off = 0;
    let mut read = 0u8;
    while off < n {
        let want = if read == 0 { 1 } else { read as usize };
        let len = if want < n - off { want } else { n - off };
        deck.squeeze(&mut out[off..off + len]);
        off += len;
        read = out[off - 1];
    }
    out
}

fn check_incremental(klen: usize, mlen: usize, dlen: usize, ds: u8, width: usize, offset: usize) {
    let key = pattern(klen, 7, 3);
    let msg = pattern(mlen, 13, 5);

    let mut dig0 = vec![0u8; dlen];
    let mut deck0 = Xoofff::new(&key);
    deck0.absorb(&msg);
    deck0.absorb(&[]);
    deck0.finalize(ds, width, offset);
    deck0.squeeze(&mut dig0);

    let dig1 = incremental(&key, &msg, ds, width, offset, dlen);
    assert_eq!(dig0, dig1);
}

#[test]
fn incremental_io_key_32_message_0_digest_32_offset_0() {
    check_incremental(32, 0, 32, 0b1, 1, 0);
}

#[test]
fn incremental_io_key_16_message_32_digest_64_offset_0() {
    check_incremental(16, 32, 64, 0b11, 2, 0);
}

#[test]
fn incremental_io_key_32_message_64_digest_128_offset_1() {
    check_incremental(32, 64, 128, 0b101, 3, 1);
}

#[test]
fn incremental_io_key_32_message_128_digest_256_offset_2() {
    check_incremental(32, 128, 256, 0b101, 3, 2);
}

#[test]
fn incremental_io_key_32_message_256_digest_512_offset_4() {
    check_incremental(32, 256, 512, 0b1101, 4, 4);
}

#[test]
fn incremental_io_key_32_message_512_digest_1024_offset_8() {
    check_incremental(32, 512, 1024, 0b10101, 5, 8);
}

#[test]
fn incremental_io_key_32_message_1024_digest_2048_offset_16() {
    check_incremental(32, 1024, 2048, 0, 0, 16);
}

#[test]
fn incremental_io_key_47_message_2048_digest_4096_offset_16() {
    check_incremental(47, 2048, 4096, 0b1, 2, 16);
}

#[test]
fn incremental_io_offset_32_and_the_largest_offset() {
    check_incremental(24, 1024, 32, 0, 0, 32);
    check_incremental(24, 1024, 100, 0, 0, 48);
}

#[test]
fn known_answer_key_32_empty_message() {
    let out = oneshot(&pattern(32, 7, 3), &[], 1, 1, 0, 32);
    assert_eq!(
        out,
        unhex("c016ba63b433f868c15f4822ef73d18685c76a70786d139abb33f0eea9ae7ae1")
    );
}

#[test]
fn known_answer_zero_key_empty_message() {
    let out = oneshot(&[0u8; 32], &[], 0, 0, 0, 32);
    assert_eq!(
        out,
        unhex("d0157414a03d0373ebdd49b84260abed87f37c1f5dbc10436a2c87dc16410f53")
    );
}

#[test]
fn known_answer_empty_key_empty_message() {
    let out = oneshot(&[], &[], 0, 0, 0, 48);
    assert_eq!(
        out,
        unhex(
            "9eb374961fe768a29835d5a99323750a87d37a2ef820008ed88324aa7bffa31a\
             bc0b150da93adecd06dda809fcc288c1"
        )
    );
}

#[test]
fn known_answer_key_16_message_32() {
    let out = oneshot(&pattern(16, 7, 3), &pattern(32, 13, 5), 3, 2, 0, 64);
    assert_eq!(
        out,
        unhex(
            "bbe6b84e9169ee80dce204cb93780268199a5dd4152d109d69fc51675884e2e2\
             b396cb5241fed8a43e691a1e5c5cbc6c1ace22c2b9d86efc24e286d5ec36995c"
        )
    );
}

#[test]
fn known_answer_key_32_message_64_offset_1() {
    let out = oneshot(&pattern(32, 7, 3), &pattern(64, 13, 5), 5, 3, 1, 128);
    assert_eq!(
        out,
        unhex(
            "2d78025ec69cc58183e627aea27c9dbe289a50d2fd8173e8e80edb2a7afd9bd0\
             b1c97f4f874fcbae78c8409dda50e2746d3e4a979e56d306f6931394df3a362a\
             7f5284a8bdbd313665444b9664ef9d2817bd2dcf024afbde2a07a961a5d17329\
             4468d2beb330ac010a01d78818667c60fa0550c048bbc428e43c13cf4ccfed86"
        )
    );
}

#[test]
fn known_answer_longest_key_one_whole_block() {
    let out = oneshot(&pattern(47, 7, 3), &pattern(48, 13, 5), 1, 2, 16, 50);
    assert_eq!(
        out,
        unhex(
            "bc9f994e246eaaded9d69212b0326b85f6d8bdf9cd5d2ca5d17b83cb4c4a572d\
             650407c62908a77c2006bf7221001ddb122e"
        )
    );
}

#[test]
fn known_answer_first_block_skipped() {
    let out = oneshot(&pattern(32, 7, 3), &pattern(47, 13, 5), 0, 0, 48, 96);
    assert_eq!(
        out,
        unhex(
            "677eacbc90b946b4adec59d2667b71266f4fc9c3a9c92dcf419614be8bf676a7\
             eccc53be77fd7e671867a192c8cd1b6c4bf9f32f0e2e351aecf340250ee60987\
             9a27118ba2ee7a5ae31e9679c3881dd67409c7cd9cddaba55e847da47cd2b1d1"
        )
    );
}

#[test]
fn known_answer_widest_domain_separator() {
    let out = oneshot(&pattern(1, 7, 3), &pattern(100, 13, 5), 0x7f, 7, 47, 16);
    assert_eq!(out, unhex("1d97acebdd21868588f65f34219e3153"));
}

#[test]
fn known_answers_hold_for_incremental_use_too() {
    let out = incremental(&pattern(32, 7, 3), &pattern(64, 13, 5), 5, 3, 1, 128);
    assert_eq!(out, oneshot(&pattern(32, 7, 3), &pattern(64, 13, 5), 5, 3, 1, 128));
    let out = incremental(&pattern(1, 7, 3), &pattern(100, 13, 5), 0x7f, 7, 47, 16);
    assert_eq!(out, unhex("1d97acebdd21868588f65f34219e3153"));
}

#[test]
fn two_messages_in_sequence() {
    let mut deck = Xoofff::new(&pattern(32, 7, 3));
    deck.absorb(&pattern(70, 13, 5));
    deck.finalize(1, 1, 0);
    let mut first = vec![0u8; 60];
    deck.squeeze(&mut first);
    assert_eq!(
        first,
        unhex(
            "2bd563f22f25cef1fa298d5b6cc9b018199e683e01d8ae0ea20685e60744b37e\
             b684992eb0a1f8aa05995e706707da3eb8d3760b731cc656ca479d22"
        )
    );
    deck.restart();
    deck.absorb(&pattern(33, 3, 9));
    deck.finalize(2, 2, 5);
    let mut second = vec![0u8; 70];
    deck.squeeze(&mut second);
    assert_eq!(
        second,
        unhex(
            "fd29ff7f25ccfa23942ed6c8ab1ba040b398ce2b98263ca5d44e77988fdd4a9a\
             79022203277ef403ef8757c01545e42f3bdc1d2d83778cd668d2469109492bd9\
             b420395e5b8e"
        )
    );
}

#[test]
fn the_second_message_does_not_depend_on_how_much_was_squeezed() {
    let mut outputs: Vec<Vec<u8>> = Vec::new();
    for &squeezed in [0usize, 1, 47, 48, 49, 200].iter() {
        let mut deck = Xoofff::new(&pattern(32, 7, 3));
        deck.absorb(&pattern(70, 13, 5));
        deck.finalize(1, 1, 0);
        let mut first = vec![0u8; squeezed];
        deck.squeeze(&mut first);
        deck.restart();
        deck.absorb(&pattern(33, 3, 9));
        deck.finalize(2, 2, 5);
        let mut second = vec![0u8; 70];
        deck.squeeze(&mut second);
        outputs.push(second);
    }
    for out in outputs.iter() {
        assert_eq!(out, &outputs[0]);
    }
}

#[test]
fn the_second_message_depends_on_the_first() {
    let mut with_first = Xoofff::new(&pattern(32, 7, 3));
    with_first.absorb(&pattern(70, 13, 5));
    with_first.finalize(1, 1, 0);
    with_first.restart();
    with_first.absorb(&pattern(33, 3, 9));
    with_first.finalize(2, 2, 5);
    let mut chained = vec![0u8; 70];
    with_first.squeeze(&mut chained);

    let alone = oneshot(&pattern(32, 7, 3), &pattern(33, 3, 9), 2, 2, 5, 70);
    assert_ne!(chained, alone);
}

#[test]
fn absorbing_nothing_changes_nothing() {
    let key = pattern(32, 7, 3);
    let msg = pattern(100, 13, 5);
    let mut a = Xoofff::new(&key);
    let mut b = Xoofff::new(&key);
    a.absorb(&[]);
    a.absorb(&msg[..10]);
    a.absorb(&[]);
    a.absorb(&msg[10..96]);
    a.absorb(&[]);
    a.absorb(&msg[96..]);
    a.absorb(&[]);
    b.absorb(&msg);
    a.finalize(1, 1, 0);
    b.finalize(1, 1, 0);
    let mut out_a = vec![0u8; 64];
    let mut out_b = vec![0u8; 64];
    a.squeeze(&mut out_a);
    b.squeeze(&mut out_b);
    assert_eq!(out_a, out_b);
}

#[test]
fn absorbing_after_finalizing_does_nothing() {
    let key = pattern(32, 7, 3);
    let mut a = Xoofff::new(&key);
    a.absorb(&pattern(20, 13, 5));
    a.finalize(1, 1, 0);
    a.absorb(&pattern(500, 1, 1));
    let mut out = vec![0u8; 64];
    a.squeeze(&mut out);
    assert_eq!(out, oneshot(&key, &pattern(20, 13, 5), 1, 1, 0, 64));
}

#[test]
fn finalizing_twice_does_nothing_more() {
    let key = pattern(32, 7, 3);
    let mut a = Xoofff::new(&key);
    a.absorb(&pattern(20, 13, 5));
    a.finalize(1, 1, 0);
    let mut head = vec![0u8; 10];
    a.squeeze(&mut head);
    a.finalize(3, 2, 7);
    let mut tail = vec![0u8; 54];
    a.squeeze(&mut tail);
    let whole = oneshot(&key, &pattern(20, 13, 5), 1, 1, 0, 64);
    assert_eq!(&head[..], &whole[..10]);
    assert_eq!(&tail[..], &whole[10..]);
}

#[test]
fn squeezing_before_finalizing_gives_nothing() {
    let key = pattern(32, 7, 3);
    let mut a = Xoofff::new(&key);
    a.absorb(&pattern(20, 13, 5));
    let mut out = vec![0xa5u8; 100];
    a.squeeze(&mut out);
    assert_eq!(out, vec![0xa5u8; 100]);
    a.finalize(1, 1, 0);
    let mut out = vec![0u8; 64];
    a.squeeze(&mut out);
    assert_eq!(out, oneshot(&key, &pattern(20, 13, 5), 1, 1, 0, 64));
}

#[test]
fn restarting_while_absorbing_does_nothing() {
    let key = pattern(32, 7, 3);
    let msg = pattern(120, 13, 5);
    let mut a = Xoofff::new(&key);
    a.restart();
    a.absorb(&msg[..50]);
    a.restart();
    a.absorb(&msg[50..]);
    a.restart();
    a.finalize(1, 1, 0);
    let mut out = vec![0u8; 64];
    a.squeeze(&mut out);
    assert_eq!(out, oneshot(&key, &msg, 1, 1, 0, 64));
}

#[test]
fn squeezing_nothing_changes_nothing() {
    let key = pattern(32, 7, 3);
    for &offset in [0usize, 17, 48].iter() {
        let mut a = Xoofff::new(&key);
        a.absorb(&pattern(20, 13, 5));
        a.finalize(1, 1, offset);
        let mut none: [u8; 0] = [];
        a.squeeze(&mut none);
        a.squeeze(&mut none);
        let mut out = vec![0u8; 100];
        a.squeeze(&mut out);
        assert_eq!(out, oneshot(&key, &pattern(20, 13, 5), 1, 1, offset, 100));
    }
}

#[test]
fn the_offset_skips_the_first_bytes_of_output() {
    let key = pattern(32, 7, 3);
    let msg = pattern(77, 13, 5);
    let whole = oneshot(&key, &msg, 1, 1, 0, 48 + 100);
    for offset in 0..=48usize {
        let out = oneshot(&key, &msg, 1, 1, offset, 100);
        assert_eq!(&out[..], &whole[offset..offset + 100]);
    }
}

#[test]
fn reads_of_any_sizes_give_the_same_stream() {
    let key = pattern(32, 7, 3);
    let msg = pattern(77, 13, 5);
    let whole = oneshot(&key, &msg, 2, 3, 9, 500);
    for &step in [1usize, 2, 39, 47, 48, 49, 96, 250, 499, 500].iter() {
        let mut deck = Xoofff::new(&key);
        deck.absorb(&msg);
        deck.finalize(2, 3, 9);
        let mut out = vec![0u8; 500];
        let mut off = 0;
        while off < 500 {
            let len = if step < 500 - off { step } else { 500 - off };
            deck.squeeze(&mut out[off..off + len]);
            off += len;
        }
        assert_eq!(out, whole);
    }
}

#[test]
fn chunks_of_any_sizes_give_the_same_state() {
    let key = pattern(32, 7, 3);
    let msg = pattern(333, 13, 5);
    let whole = oneshot(&key, &msg, 2, 3, 9, 96);
    for &step in [1usize, 2, 47, 48, 49, 95, 96, 97, 332, 333].iter() {
        let mut deck = Xoofff::new(&key);
        let mut off = 0;
        while off < msg.len() {
            let len = if step < msg.len() - off { step } else { msg.len() - off };
            deck.absorb(&msg[off..off + len]);
            off += len;
        }
        deck.finalize(2, 3, 9);
        let mut out = vec![0u8; 96];
        deck.squeeze(&mut out);
        assert_eq!(out, whole);
    }
}

#[test]
fn equal_inputs_give_equal_outputs() {
    let key = pattern(40, 7, 3);
    let msg = pattern(123, 13, 5);
    let a = oneshot(&key, &msg, 6, 3, 11, 300);
    let b = oneshot(&key, &msg, 6, 3, 11, 300);
    assert_eq!(a, b);
    let shorter = oneshot(&key, &msg, 6, 3, 11, 30);
    assert_eq!(&shorter[..], &a[..30]);
}

#[test]
fn a_copy_goes_its_own_way() {
    let key = pattern(40, 7, 3);
    let mut a = Xoofff::new(&key);
    a.absorb(&pattern(30, 13, 5));
    let mut b = a;
    a.absorb(&pattern(10, 1, 1));
    b.absorb(&pattern(10, 1, 1));
    a.finalize(0, 0, 0);
    b.finalize(0, 0, 0);
    let mut out_a = vec![0u8; 48];
    let mut out_b = vec![0u8; 48];
    a.squeeze(&mut out_a);
    b.squeeze(&mut out_b);
    assert_eq!(out_a, out_b);
}

#[test]
fn the_longest_key_is_accepted() {
    let key = pattern(47, 7, 3);
    let out = oneshot(&key, &pattern(48, 13, 5), 1, 2, 16, 50);
    assert_eq!(out.len(), 50);
    let other = oneshot(&pattern(46, 7, 3), &pattern(48, 13, 5), 1, 2, 16, 50);
    assert_ne!(out, other);
}

#[test]
fn a_key_and_its_zero_extension_differ() {
    let short = oneshot(&[1, 2, 3], &[], 0, 0, 0, 32);
    let long = oneshot(&[1, 2, 3, 0], &[], 0, 0, 0, 32);
    assert_ne!(short, long);
}

#[test]
fn only_the_low_bits_of_the_domain_separator_count() {
    let key = pattern(32, 7, 3);
    let msg = pattern(20, 13, 5);
    let a = oneshot(&key, &msg, 0b0000_0101, 3, 0, 32);
    let b = oneshot(&key, &msg, 0b1111_1101, 3, 0, 32);
    assert_eq!(a, b);
    let c = oneshot(&key, &msg, 0b0000_0001, 3, 0, 32);
    assert_ne!(a, c);
    let d = oneshot(&key, &msg, 0b0000_0101, 4, 0, 32);
    assert_ne!(a, d);
    let e = oneshot(&key, &msg, 0xff, 0, 0, 32);
    let f = oneshot(&key, &msg, 0x00, 0, 0, 32);
    assert_eq!(e, f);
}

#[test]
fn the_closing_byte_is_part_of_the_message() {
    let key = pattern(32, 7, 3);
    let closed = oneshot(&key, &[0xaa], 0, 0, 0, 32);
    let spelled = oneshot(&key, &[0xaa, 0x01], 0, 0, 0, 32);
    assert_ne!(closed, spelled);
    let width_two = oneshot(&key, &[0xaa], 0b10, 2, 0, 32);
    let width_three = oneshot(&key, &[0xaa], 0b110, 3, 0, 32);
    assert_ne!(width_two, width_three);
}
