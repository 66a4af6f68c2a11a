use simplicity::BitIter;
use simplicity::BitWriter;
use simplicity::Error;
use simplicity::NoJets;
use simplicity::Program;
use simplicity::TypeError;
use simplicity::decode_natural;
use simplicity::decode_program;
use simplicity::encode_natural;
use simplicity::encode_program;

fn assert_program_succeeds(prog_bytes: &[u8]) -> Program<NoJets> {
    let mut iter = BitIter::from_bytes(prog_bytes);
    let prog = match decode_program::<NoJets>(&mut iter) {
        Ok(prog) => prog,
        Err(e) => panic!("program {:?} failed: {:?}", prog_bytes, e),
    };

    let mut w = BitWriter::new();
    encode_program(&prog, &mut w);
    // the test vectors carry an empty witness section after the program
    w.write_bit(false);
    let reser = w.to_bytes();
    assert_eq!(prog_bytes, &reser[..], "program {:?} reserialized as {:?}", prog_bytes, reser);

    prog
}

fn assert_program_fails(prog: &[u8], err: Error) {
    let mut iter = BitIter::from_bytes(prog);
    match decode_program::<NoJets>(&mut iter) {
        Ok(_) => panic!("Program {:?} succeeded (expected error {:?})", prog, err),
        Err(e) if e == err => {}
        Err(e) => panic!("Program {:?} failed with error {:?} (expected error {:?})", prog, e, err),
    };
}

#[test]
fn canonical_order() {
    // "main = comp unit iden", but with the iden serialized before the unit
    assert_program_fails(&[0xa8, 0x48, 0x10], Error::NotInCanonicalOrder);
}

#[test]
fn assert_lr() {
    // asl = assertl unit deadbeefdeadbeefdeadbeefdeadbeefdeadbeefdeadbeefdeadbeefdeadbeef
    // main = comp witness asl
    assert_program_succeeds(&[
        0xc5, 0xd2, 0xdb, 0xd5, 0xb7, 0xdd, 0xfb, 0xd5,
        0xb7, 0xdd, 0xfb, 0xd5, 0xb7, 0xdd, 0xfb, 0xd5,
        0xb7, 0xdd, 0xfb, 0xd5, 0xb7, 0xdd, 0xfb, 0xd5,
        0xb7, 0xdd, 0xfb, 0xd5, 0xb7, 0xdd, 0xfb, 0xd5,
        0xb7, 0xdd, 0xe1, 0x80, 0x60, 0x00,
    ]);

    // asr = assertr deadbeefdeadbeefdeadbeefdeadbeefdeadbeefdeadbeefdeadbeefdeadbeef unit
    // main = comp witness asr
    assert_program_succeeds(&[
        0xc5, 0xdb, 0x7a, 0xb6, 0xfb, 0xbf, 0x7a, 0xb6,
        0xfb, 0xbf, 0x7a, 0xb6, 0xfb, 0xbf, 0x7a, 0xb6,
        0xfb, 0xbf, 0x7a, 0xb6, 0xfb, 0xbf, 0x7a, 0xb6,
        0xfb, 0xbf, 0x7a, 0xb6, 0xfb, 0xbf, 0x7a, 0xb6,
        0xfb, 0xbd, 0x21, 0x80, 0x60, 0x00,
    ]);
}

#[test]
fn extra_nodes() {
    // main = comp unit unit # but with an extra unconnected `unit` stuck on the beginning
    assert_program_fails(&[0xa9, 0x48, 0x00], Error::NotInCanonicalOrder);
}

#[test]
fn decode_fixed_natural() {
    let tries = vec![
        (1, vec![false]),
        (2, vec![true, false, false]),
        (3, vec![true, false, true]),
        (4, vec![true, true, false, false, false, false]),
        (5, vec![true, true, false, false, false, true]),
        (6, vec![true, true, false, false, true, false]),
        (7, vec![true, true, false, false, true, true]),
        (8, vec![true, true, false, true, false, false, false]),
        (15, vec![true, true, false, true, true, true, true]),
        (
            16,
            vec![
                true, true, true, false, // len: 1
                false, // len: 2
                false, false, // len: 4
                false, false, false, false,
            ],
        ),
        // 31
        (
            31,
            vec![
                true, true, true, false, // len: 1
                false, // len: 2
                false, false, // len: 4
                true, true, true, true,
            ],
        ),
        // 32
        (
            32,
            vec![
                true, true, true, false, // len: 1
                false, // len: 2
                false, true, // len: 5
                false, false, false, false, false,
            ],
        ),
        // 2^15
        (
            32768,
            vec![
                true, true, true, false, // len: 1
                true,  // len: 3
                true, true, true, // len: 15
                false, false, false, false, false, false, false, false, false, false, false,
                false, false, false, false,
            ],
        ),
        (
            65535,
            vec![
                true, true, true, false, // len: 1
                true,  // len: 3
                true, true, true, // len: 15
                true, true, true, true, true, true, true, true, true, true, true, true, true,
                true, true,
            ],
        ),
        (
            65536,
            vec![
                true, true, true, true, false, // len: 1
                false, // len: 2
                false, false, // len: 4
                false, false, false, false, // len: 16
                false, false, false, false, false, false, false, false, false, false, false,
                false, false, false, false, false,
            ],
        ),
    ];

    for (natural, bitvec) in tries {
        let truncated = bitvec[0..bitvec.len() - 1].to_vec();
        let mut trunc_iter = BitIter::from_bits(truncated);
        assert!(matches!(decode_natural(&mut trunc_iter, None), Err(Error::EndOfStream)));

        let mut w = BitWriter::new();
        encode_natural(natural, &mut w);
        assert_eq!(w.n_total_written(), bitvec.len());
        let sink = w.to_bytes();

        let mut iter = BitIter::from_bytes(&sink);
        let decoded_natural = decode_natural(&mut iter, None).expect("decoding from vector");
        assert_eq!(natural, decoded_natural);
    }
}

#[test]
fn unit_program_cmr() {
    // main = unit
    let prog = assert_program_succeeds(&[0x24]);
    assert_eq!(prog.nodes.len(), 1);
    // the commitment of a unit leaf is the `unit` tag midstate
    assert_eq!(
        prog.nodes[0].cmr,
        vec![
            0xd7, 0x23, 0x08, 0x3c, 0xff, 0x3c, 0x75, 0xe2, 0x9f, 0x29, 0x67, 0x07, 0xec, 0xf2,
            0x75, 0x03, 0x38, 0xf1, 0x00, 0x59, 0x1c, 0x86, 0xe0, 0xc7, 0x17, 0x17, 0xf8, 0x07,
            0xff, 0x3c, 0xf6, 0x9d,
        ],
    );
}

#[test]
fn comp_program_cmr() {
    // main = comp unit iden
    let prog = assert_program_succeeds(&[0xa9, 0x40, 0x20]);
    assert_eq!(prog.nodes.len(), 3);
    // one compression step folding the children's commitments under the
    // `comp` tag
    assert_eq!(
        prog.nodes[2].cmr,
        vec![
            0x66, 0x99, 0xf5, 0xe5, 0xd6, 0x8b, 0xa4, 0x4c, 0xf9, 0xf8, 0x69, 0x76, 0xee, 0x7f,
            0x96, 0x2f, 0x94, 0xc4, 0x61, 0x89, 0x8b, 0xd9, 0xc4, 0x77, 0xa0, 0x94, 0xa1, 0x46,
            0x38, 0xca, 0x61, 0xf9,
        ],
    );
}

#[test]
fn assert_variants() {
    // a case node with exactly one hidden child decodes as an
    // assertion, never as a plain case
    let asl_prog = assert_program_succeeds(&[
        0xc5, 0xd2, 0xdb, 0xd5, 0xb7, 0xdd, 0xfb, 0xd5, 0xb7, 0xdd, 0xfb, 0xd5, 0xb7, 0xdd, 0xfb,
        0xd5, 0xb7, 0xdd, 0xfb, 0xd5, 0xb7, 0xdd, 0xfb, 0xd5, 0xb7, 0xdd, 0xfb, 0xd5, 0xb7, 0xdd,
        0xfb, 0xd5, 0xb7, 0xdd, 0xe1, 0x80, 0x60, 0x00,
    ]);
    let has_assertl = asl_prog
        .nodes
        .iter()
        .any(|n| matches!(n.inner, simplicity::NodeInner::AssertL(_, _)));
    let has_case = asl_prog
        .nodes
        .iter()
        .any(|n| matches!(n.inner, simplicity::NodeInner::Case(_, _)));
    assert!(has_assertl && !has_case);
}

#[test]
fn both_children_hidden() {
    // hidden, hidden, case(0, 1): a case must keep at least one live branch
    let mut w = BitWriter::new();
    // length 3
    encode_natural(3, &mut w);
    // two hidden nodes, each an all-ones commitment
    for _ in 0..2 {
        w.write_bit(false);
        w.write_bit(true);
        w.write_bit(true);
        w.write_bit(false);
        for _ in 0..256 {
            w.write_bit(true);
        }
    }
    // case with back-references 2 and 1
    w.write_bit(false);
    w.write_bit(false);
    w.write_bit(false);
    w.write_bit(false);
    w.write_bit(true);
    encode_natural(2, &mut w);
    encode_natural(1, &mut w);
    let bytes = w.to_bytes();
    assert_program_fails(&bytes, Error::BothChildrenHidden);
}

#[test]
fn too_many_nodes() {
    // a declared length over the ceiling is rejected before any node is
    // read, carrying the offending count
    let mut w = BitWriter::new();
    encode_natural(1_000_001, &mut w);
    let bytes = w.to_bytes();
    assert_program_fails(&bytes, Error::TooManyNodes(1_000_001));
}

#[test]
fn stop_code() {
    // a single node with the reserved stop code
    let mut w = BitWriter::new();
    encode_natural(1, &mut w);
    for b in [false, true, false, true, true] {
        w.write_bit(b);
    }
    let bytes = w.to_bytes();
    assert_program_fails(&bytes, Error::StopCode);
}

#[test]
fn invalid_jet() {
    // NoJets recognizes no jet identifier at all
    let mut w = BitWriter::new();
    encode_natural(1, &mut w);
    w.write_bit(true);
    w.write_bit(true);
    let bytes = w.to_bytes();
    assert_program_fails(&bytes, Error::InvalidJet);
}

#[test]
fn bad_index() {
    // unit, then a node whose back-reference reaches past the start
    let mut w = BitWriter::new();
    encode_natural(2, &mut w);
    for b in [false, true, false, false, true] {
        w.write_bit(b);
    }
    // injl with distance 2 at index 1
    for b in [false, false, true, false, false] {
        w.write_bit(b);
    }
    encode_natural(2, &mut w);
    let bytes = w.to_bytes();
    assert_program_fails(&bytes, Error::BadIndex);
}

#[test]
fn natural_overflow() {
    // chain 1 -> 3 -> 15 -> 2^15 + ...: an intermediate length of more
    // than 31 bits is rejected
    let mut bits = vec![true, true, true, true, false];
    bits.push(true); // word of 1 bit: 3
    bits.extend([true, true, true]); // word of 3 bits: 15
    bits.extend(std::iter::repeat(true).take(15)); // word of 15 bits: 65535 > 31
    let mut iter = BitIter::from_bits(bits);
    assert_eq!(decode_natural(&mut iter, None), Err(Error::NaturalOverflow));
}

#[test]
fn iden_program() {
    // main = iden: the identity arrow is free on both sides, so both
    // ends take the unit bound
    let prog = assert_program_succeeds(&[0x20]);
    assert_eq!(prog.nodes.len(), 1);
    assert!(matches!(prog.nodes[0].inner, simplicity::NodeInner::Iden));
}

#[test]
fn root_type_mismatch() {
    // main = injl unit: the root's target is a sum, which cannot unify
    // with the unit type demanded of a complete program
    let mut w = BitWriter::new();
    encode_natural(2, &mut w);
    for b in [false, true, false, false, true] {
        w.write_bit(b);
    }
    for b in [false, false, true, false, false] {
        w.write_bit(b);
    }
    encode_natural(1, &mut w);
    let bytes = w.to_bytes();
    assert_program_fails(&bytes, Error::Type(TypeError::Mismatch));

    // ... but it decodes fine when the root may take any type
    let mut iter = BitIter::from_bytes(&bytes);
    simplicity::decode_program_arbitrary_type::<NoJets>(&mut iter).expect("arbitrary-type decode");
}

#[test]
fn word_constant_roundtrip() {
    // main = comp word(depth 1) unit
    let prog = assert_program_succeeds(&[0xb0, 0x90, 0x40]);
    assert_eq!(prog.nodes.len(), 3);
    assert!(matches!(prog.nodes[0].inner, simplicity::NodeInner::Word { depth: 1, .. }));
}

#[test]
fn witness_header_accounting() {
    // main = witness, followed by an empty witness stream
    let bytes = [0x38];
    let mut iter = BitIter::from_bytes(&bytes);
    let _prog = decode_program::<NoJets>(&mut iter).expect("witness program");
    let dec = simplicity::WitnessDecoder::new(&mut iter).expect("witness header");
    dec.finish(&iter).expect("exact accounting");
}

#[test]
fn witness_length_mismatch() {
    // a declared length of two bits, none of which is consumed
    let mut w = BitWriter::new();
    w.write_bit(true);
    encode_natural(2, &mut w);
    w.write_bit(false);
    w.write_bit(false);
    let bytes = w.to_bytes();
    let mut iter = BitIter::from_bytes(&bytes);
    let dec = simplicity::WitnessDecoder::new(&mut iter).expect("witness header");
    assert_eq!(dec.finish(&iter), Err(Error::InconsistentWitnessLength));
}

#[test]
fn witness_value_decoding() {
    // one witness leaf of the two-valued type, drawn from a one-bit
    // witness stream
    let mut w = BitWriter::new();
    w.write_bit(true);
    encode_natural(1, &mut w);
    w.write_bit(true);
    let bytes = w.to_bytes();
    let mut iter = BitIter::from_bytes(&bytes);
    let dec = simplicity::WitnessDecoder::new(&mut iter).expect("witness header");
    let two = simplicity::FinalType::Sum(
        std::rc::Rc::new(simplicity::FinalType::Unit),
        std::rc::Rc::new(simplicity::FinalType::Unit),
    );
    let v = dec.next(&mut iter, &two).expect("witness value");
    assert!(matches!(v, simplicity::Value::SumR(_)));
    dec.finish(&iter).expect("exact accounting");
}

#[test]
fn decode_hash_roundtrip() {
    let bytes: Vec<u8> = (0u8..32).collect();
    let mut iter = BitIter::from_bytes(&bytes);
    let h = simplicity::decode_hash(&mut iter).expect("32 bytes");
    assert_eq!(h, bytes);
    // a short stream runs out
    let mut short = BitIter::from_bytes(&bytes[..31]);
    assert_eq!(simplicity::decode_hash(&mut short), Err(Error::EndOfStream));
}

#[test]
fn decode_value_by_type() {
    // the product of two sums consumes one discriminant bit per half
    let two = || {
        simplicity::FinalType::Sum(
            std::rc::Rc::new(simplicity::FinalType::Unit),
            std::rc::Rc::new(simplicity::FinalType::Unit),
        )
    };
    let ty = simplicity::FinalType::Product(std::rc::Rc::new(two()), std::rc::Rc::new(two()));
    let mut iter = BitIter::from_bits(vec![false, true]);
    let v = simplicity::decode_value(&ty, &mut iter).expect("decoding a product");
    match v {
        simplicity::Value::Prod(a, b) => {
            assert!(matches!(*a, simplicity::Value::SumL(_)));
            assert!(matches!(*b, simplicity::Value::SumR(_)));
        }
        other => panic!("unexpected value {:?}", other),
    }
    // the unit type consumes no bits
    let mut empty = BitIter::from_bits(vec![]);
    let u = simplicity::decode_value(&simplicity::FinalType::Unit, &mut empty).expect("unit value");
    assert!(matches!(u, simplicity::Value::Unit));
}
