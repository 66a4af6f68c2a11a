use vstd::prelude::*;

use crate::bits::BitIter;
use crate::bits::byte_to_bits;
use crate::bits::bytes_to_bits;
use crate::errors::Error;

verus! {

// ---------------------------------------------------------------------
// Domain-separated hashing.
//
// Every commitment is built from SHA-256 compression steps whose
// initial state is the SHA-256 hash of a fixed ASCII tag string, one
// tag per combinator kind.  The midstates below are those hashes,
// precomputed.
// ---------------------------------------------------------------------

/// What one SHA-256 compression step returns for a given 32-byte
/// midstate and 64-byte block; fixed by the hash function alone.
pub uninterp spec fn sha256_compress(iv: Seq<u8>, block: Seq<u8>) -> Seq<u8>;

/// Relies on bitcoin_hashes sha256: `from_midstate` + 64 bytes of
/// input run exactly one compression step, and `midstate` reads the
/// resulting state back out.
#[verifier::external_body]
pub fn compress(iv: &Vec<u8>, left: &Vec<u8>, right: &Vec<u8>) -> (r: Vec<u8>)
    requires
        iv@.len() == 32,
        left@.len() == 32,
        right@.len() == 32,
    ensures
        r@ == sha256_compress(iv@, left@ + right@),
        r@.len() == 32,
{
    let mut ms = [0u8; 32];
    ms.copy_from_slice(&iv[..]);
    let mut engine = bitcoin_hashes::sha256::HashEngine::from_midstate(
        bitcoin_hashes::sha256::Midstate::from_inner(ms),
        64,
    );
    bitcoin_hashes::HashEngine::input(&mut engine, &left[..]);
    bitcoin_hashes::HashEngine::input(&mut engine, &right[..]);
    bitcoin_hashes::HashEngine::midstate(&engine).into_inner().to_vec()
}

/// A 32-byte string of zero bytes, the padding half of one-child
/// commitment blocks.
pub open spec fn zero_32() -> Seq<u8> {
    Seq::new(32, |i: int| 0u8)
}

/// Build the zero padding block.
pub fn zero_32_exec() -> (r: Vec<u8>)
    ensures
        r@ == zero_32(),
{
    let mut v: Vec<u8> = Vec::new();
    let mut i: usize = 0;
    while i < 32
        invariant
            0 <= i <= 32,
            v@.len() == i,
            forall|k: int| 0 <= k < i ==> v@[k] == 0u8,
        decreases 32 - i,
    {
        v.push(0);
        i = i + 1;
    }
    proof {
        assert(v@ =~= zero_32());
    }
    v
}

/// Midstate for the `iden` tag: the SHA-256 hash of its tag string.
pub open spec fn iden_iv() -> Seq<u8> {
    seq![
        0x58u8, 0x97u8, 0xf9u8, 0x5du8, 0xe2u8, 0x1fu8, 0xafu8, 0x1eu8,
        0x3eu8, 0x4au8, 0xabu8, 0x12u8, 0x78u8, 0x06u8, 0x6au8, 0x73u8,
        0xb2u8, 0x6bu8, 0x27u8, 0xacu8, 0x8au8, 0x25u8, 0x6cu8, 0x5cu8,
        0xc3u8, 0x7cu8, 0x73u8, 0xc9u8, 0x6eu8, 0x29u8, 0xe1u8, 0x6au8,
    ]
}

/// The `iden` tag midstate as bytes.
pub fn iden_midstate() -> (r: Vec<u8>)
    ensures
        r@ == iden_iv(),
        r@.len() == 32,
{
    let mut v: Vec<u8> = Vec::new();
    v.push(0x58);
    v.push(0x97);
    v.push(0xf9);
    v.push(0x5d);
    v.push(0xe2);
    v.push(0x1f);
    v.push(0xaf);
    v.push(0x1e);
    v.push(0x3e);
    v.push(0x4a);
    v.push(0xab);
    v.push(0x12);
    v.push(0x78);
    v.push(0x06);
    v.push(0x6a);
    v.push(0x73);
    v.push(0xb2);
    v.push(0x6b);
    v.push(0x27);
    v.push(0xac);
    v.push(0x8a);
    v.push(0x25);
    v.push(0x6c);
    v.push(0x5c);
    v.push(0xc3);
    v.push(0x7c);
    v.push(0x73);
    v.push(0xc9);
    v.push(0x6e);
    v.push(0x29);
    v.push(0xe1);
    v.push(0x6a);
    proof {
        assert(v@ =~= iden_iv());
    }
    v
}

/// Midstate for the `comp` tag: the SHA-256 hash of its tag string.
pub open spec fn comp_iv() -> Seq<u8> {
    seq![
        0x85u8, 0x61u8, 0xcbu8, 0x37u8, 0xd5u8, 0x8du8, 0xfbu8, 0x60u8,
        0xe0u8, 0xa1u8, 0x0bu8, 0x94u8, 0xefu8, 0xbfu8, 0x95u8, 0x52u8,
        0x7cu8, 0xe7u8, 0x97u8, 0x32u8, 0x15u8, 0xe8u8, 0x82u8, 0x6fu8,
        0x46u8, 0x15u8, 0xfcu8, 0x5fu8, 0xaeu8, 0xffu8, 0x5cu8, 0xe9u8,
    ]
}

/// The `comp` tag midstate as bytes.
pub fn comp_midstate() -> (r: Vec<u8>)
    ensures
        r@ == comp_iv(),
        r@.len() == 32,
{
    let mut v: Vec<u8> = Vec::new();
    v.push(0x85);
    v.push(0x61);
    v.push(0xcb);
    v.push(0x37);
    v.push(0xd5);
    v.push(0x8d);
    v.push(0xfb);
    v.push(0x60);
    v.push(0xe0);
    v.push(0xa1);
    v.push(0x0b);
    v.push(0x94);
    v.push(0xef);
    v.push(0xbf);
    v.push(0x95);
    v.push(0x52);
    v.push(0x7c);
    v.push(0xe7);
    v.push(0x97);
    v.push(0x32);
    v.push(0x15);
    v.push(0xe8);
    v.push(0x82);
    v.push(0x6f);
    v.push(0x46);
    v.push(0x15);
    v.push(0xfc);
    v.push(0x5f);
    v.push(0xae);
    v.push(0xff);
    v.push(0x5c);
    v.push(0xe9);
    proof {
        assert(v@ =~= comp_iv());
    }
    v
}

/// Midstate for the `unit` tag: the SHA-256 hash of its tag string.
pub open spec fn unit_iv() -> Seq<u8> {
    seq![
        0xd7u8, 0x23u8, 0x08u8, 0x3cu8, 0xffu8, 0x3cu8, 0x75u8, 0xe2u8,
        0x9fu8, 0x29u8, 0x67u8, 0x07u8, 0xecu8, 0xf2u8, 0x75u8, 0x03u8,
        0x38u8, 0xf1u8, 0x00u8, 0x59u8, 0x1cu8, 0x86u8, 0xe0u8, 0xc7u8,
        0x17u8, 0x17u8, 0xf8u8, 0x07u8, 0xffu8, 0x3cu8, 0xf6u8, 0x9du8,
    ]
}

/// The `unit` tag midstate as bytes.
pub fn unit_midstate() -> (r: Vec<u8>)
    ensures
        r@ == unit_iv(),
        r@.len() == 32,
{
    let mut v: Vec<u8> = Vec::new();
    v.push(0xd7);
    v.push(0x23);
    v.push(0x08);
    v.push(0x3c);
    v.push(0xff);
    v.push(0x3c);
    v.push(0x75);
    v.push(0xe2);
    v.push(0x9f);
    v.push(0x29);
    v.push(0x67);
    v.push(0x07);
    v.push(0xec);
    v.push(0xf2);
    v.push(0x75);
    v.push(0x03);
    v.push(0x38);
    v.push(0xf1);
    v.push(0x00);
    v.push(0x59);
    v.push(0x1c);
    v.push(0x86);
    v.push(0xe0);
    v.push(0xc7);
    v.push(0x17);
    v.push(0x17);
    v.push(0xf8);
    v.push(0x07);
    v.push(0xff);
    v.push(0x3c);
    v.push(0xf6);
    v.push(0x9d);
    proof {
        assert(v@ =~= unit_iv());
    }
    v
}

/// Midstate for the `injl` tag: the SHA-256 hash of its tag string.
pub open spec fn injl_iv() -> Seq<u8> {
    seq![
        0x78u8, 0x72u8, 0xdbu8, 0xd3u8, 0x46u8, 0x97u8, 0xe9u8, 0xc4u8,
        0x26u8, 0x4eu8, 0xadu8, 0x6du8, 0xc1u8, 0xc3u8, 0x6bu8, 0x0eu8,
        0x85u8, 0xe2u8, 0x5bu8, 0x56u8, 0x17u8, 0x00u8, 0x4eu8, 0x8au8,
        0xd4u8, 0xacu8, 0x2au8, 0x38u8, 0x15u8, 0x93u8, 0xaeu8, 0xebu8,
    ]
}

/// The `injl` tag midstate as bytes.
pub fn injl_midstate() -> (r: Vec<u8>)
    ensures
        r@ == injl_iv(),
        r@.len() == 32,
{
    let mut v: Vec<u8> = Vec::new();
    v.push(0x78);
    v.push(0x72);
    v.push(0xdb);
    v.push(0xd3);
    v.push(0x46);
    v.push(0x97);
    v.push(0xe9);
    v.push(0xc4);
    v.push(0x26);
    v.push(0x4e);
    v.push(0xad);
    v.push(0x6d);
    v.push(0xc1);
    v.push(0xc3);
    v.push(0x6b);
    v.push(0x0e);
    v.push(0x85);
    v.push(0xe2);
    v.push(0x5b);
    v.push(0x56);
    v.push(0x17);
    v.push(0x00);
    v.push(0x4e);
    v.push(0x8a);
    v.push(0xd4);
    v.push(0xac);
    v.push(0x2a);
    v.push(0x38);
    v.push(0x15);
    v.push(0x93);
    v.push(0xae);
    v.push(0xeb);
    proof {
        assert(v@ =~= injl_iv());
    }
    v
}

/// Midstate for the `injr` tag: the SHA-256 hash of its tag string.
pub open spec fn injr_iv() -> Seq<u8> {
    seq![
        0x0eu8, 0xb0u8, 0x0bu8, 0x89u8, 0x20u8, 0x77u8, 0x61u8, 0x23u8,
        0x2fu8, 0x16u8, 0x8du8, 0xffu8, 0xcdu8, 0x8fu8, 0xdau8, 0xf9u8,
        0xebu8, 0x15u8, 0xa2u8, 0x0eu8, 0xcfu8, 0x4fu8, 0x68u8, 0xa2u8,
        0xdeu8, 0x52u8, 0x03u8, 0x24u8, 0x2fu8, 0xe2u8, 0xa0u8, 0xd6u8,
    ]
}

/// The `injr` tag midstate as bytes.
pub fn injr_midstate() -> (r: Vec<u8>)
    ensures
        r@ == injr_iv(),
        r@.len() == 32,
{
    let mut v: Vec<u8> = Vec::new();
    v.push(0x0e);
    v.push(0xb0);
    v.push(0x0b);
    v.push(0x89);
    v.push(0x20);
    v.push(0x77);
    v.push(0x61);
    v.push(0x23);
    v.push(0x2f);
    v.push(0x16);
    v.push(0x8d);
    v.push(0xff);
    v.push(0xcd);
    v.push(0x8f);
    v.push(0xda);
    v.push(0xf9);
    v.push(0xeb);
    v.push(0x15);
    v.push(0xa2);
    v.push(0x0e);
    v.push(0xcf);
    v.push(0x4f);
    v.push(0x68);
    v.push(0xa2);
    v.push(0xde);
    v.push(0x52);
    v.push(0x03);
    v.push(0x24);
    v.push(0x2f);
    v.push(0xe2);
    v.push(0xa0);
    v.push(0xd6);
    proof {
        assert(v@ =~= injr_iv());
    }
    v
}

/// Midstate for the `case` tag: the SHA-256 hash of its tag string.
pub open spec fn case_iv() -> Seq<u8> {
    seq![
        0xd4u8, 0x91u8, 0xf7u8, 0x3au8, 0x5cu8, 0xc0u8, 0x88u8, 0x4au8,
        0xb4u8, 0xefu8, 0xcau8, 0x12u8, 0x33u8, 0x79u8, 0x8bu8, 0x31u8,
        0xbau8, 0x62u8, 0x86u8, 0x96u8, 0x20u8, 0x5au8, 0x81u8, 0xe7u8,
        0x67u8, 0x56u8, 0x27u8, 0x2du8, 0xdbu8, 0xd3u8, 0xdfu8, 0xfbu8,
    ]
}

/// The `case` tag midstate as bytes.
pub fn case_midstate() -> (r: Vec<u8>)
    ensures
        r@ == case_iv(),
        r@.len() == 32,
{
    let mut v: Vec<u8> = Vec::new();
    v.push(0xd4);
    v.push(0x91);
    v.push(0xf7);
    v.push(0x3a);
    v.push(0x5c);
    v.push(0xc0);
    v.push(0x88);
    v.push(0x4a);
    v.push(0xb4);
    v.push(0xef);
    v.push(0xca);
    v.push(0x12);
    v.push(0x33);
    v.push(0x79);
    v.push(0x8b);
    v.push(0x31);
    v.push(0xba);
    v.push(0x62);
    v.push(0x86);
    v.push(0x96);
    v.push(0x20);
    v.push(0x5a);
    v.push(0x81);
    v.push(0xe7);
    v.push(0x67);
    v.push(0x56);
    v.push(0x27);
    v.push(0x2d);
    v.push(0xdb);
    v.push(0xd3);
    v.push(0xdf);
    v.push(0xfb);
    proof {
        assert(v@ =~= case_iv());
    }
    v
}

/// Midstate for the `pair` tag: the SHA-256 hash of its tag string.
pub open spec fn pair_iv() -> Seq<u8> {
    seq![
        0xf8u8, 0x86u8, 0x2eu8, 0x70u8, 0xe0u8, 0x7cu8, 0xe3u8, 0xc2u8,
        0x27u8, 0x63u8, 0xdfu8, 0xbfu8, 0x7eu8, 0x7cu8, 0xbdu8, 0x27u8,
        0x8eu8, 0xadu8, 0xbbu8, 0xa4u8, 0x35u8, 0x5fu8, 0x64u8, 0x4eu8,
        0x1cu8, 0x91u8, 0xc0u8, 0xe8u8, 0xe8u8, 0x24u8, 0x8du8, 0xb7u8,
    ]
}

/// The `pair` tag midstate as bytes.
pub fn pair_midstate() -> (r: Vec<u8>)
    ensures
        r@ == pair_iv(),
        r@.len() == 32,
{
    let mut v: Vec<u8> = Vec::new();
    v.push(0xf8);
    v.push(0x86);
    v.push(0x2e);
    v.push(0x70);
    v.push(0xe0);
    v.push(0x7c);
    v.push(0xe3);
    v.push(0xc2);
    v.push(0x27);
    v.push(0x63);
    v.push(0xdf);
    v.push(0xbf);
    v.push(0x7e);
    v.push(0x7c);
    v.push(0xbd);
    v.push(0x27);
    v.push(0x8e);
    v.push(0xad);
    v.push(0xbb);
    v.push(0xa4);
    v.push(0x35);
    v.push(0x5f);
    v.push(0x64);
    v.push(0x4e);
    v.push(0x1c);
    v.push(0x91);
    v.push(0xc0);
    v.push(0xe8);
    v.push(0xe8);
    v.push(0x24);
    v.push(0x8d);
    v.push(0xb7);
    proof {
        assert(v@ =~= pair_iv());
    }
    v
}

/// Midstate for the `take` tag: the SHA-256 hash of its tag string.
pub open spec fn take_iv() -> Seq<u8> {
    seq![
        0x3au8, 0x5au8, 0xfeu8, 0x9eu8, 0xafu8, 0x9fu8, 0x65u8, 0x16u8,
        0x77u8, 0x63u8, 0x27u8, 0x7fu8, 0x37u8, 0x28u8, 0x82u8, 0xb6u8,
        0x6du8, 0x76u8, 0xc9u8, 0xc7u8, 0x90u8, 0x8du8, 0x89u8, 0xb1u8,
        0x75u8, 0x3fu8, 0x40u8, 0xaau8, 0x0eu8, 0xaeu8, 0xe9u8, 0x82u8,
    ]
}

/// The `take` tag midstate as bytes.
pub fn take_midstate() -> (r: Vec<u8>)
    ensures
        r@ == take_iv(),
        r@.len() == 32,
{
    let mut v: Vec<u8> = Vec::new();
    v.push(0x3a);
    v.push(0x5a);
    v.push(0xfe);
    v.push(0x9e);
    v.push(0xaf);
    v.push(0x9f);
    v.push(0x65);
    v.push(0x16);
    v.push(0x77);
    v.push(0x63);
    v.push(0x27);
    v.push(0x7f);
    v.push(0x37);
    v.push(0x28);
    v.push(0x82);
    v.push(0xb6);
    v.push(0x6d);
    v.push(0x76);
    v.push(0xc9);
    v.push(0xc7);
    v.push(0x90);
    v.push(0x8d);
    v.push(0x89);
    v.push(0xb1);
    v.push(0x75);
    v.push(0x3f);
    v.push(0x40);
    v.push(0xaa);
    v.push(0x0e);
    v.push(0xae);
    v.push(0xe9);
    v.push(0x82);
    proof {
        assert(v@ =~= take_iv());
    }
    v
}

/// Midstate for the `drop` tag: the SHA-256 hash of its tag string.
pub open spec fn drop_iv() -> Seq<u8> {
    seq![
        0xcdu8, 0xc7u8, 0x50u8, 0x2au8, 0xefu8, 0x55u8, 0x84u8, 0x38u8,
        0x9eu8, 0xf3u8, 0x38u8, 0x5cu8, 0x11u8, 0x2cu8, 0x3bu8, 0x51u8,
        0x9cu8, 0x3du8, 0xbdu8, 0xd6u8, 0xc9u8, 0x6cu8, 0xafu8, 0x74u8,
        0xebu8, 0x85u8, 0x5bu8, 0x5eu8, 0x56u8, 0x14u8, 0x2cu8, 0xfcu8,
    ]
}

/// The `drop` tag midstate as bytes.
pub fn drop_midstate() -> (r: Vec<u8>)
    ensures
        r@ == drop_iv(),
        r@.len() == 32,
{
    let mut v: Vec<u8> = Vec::new();
    v.push(0xcd);
    v.push(0xc7);
    v.push(0x50);
    v.push(0x2a);
    v.push(0xef);
    v.push(0x55);
    v.push(0x84);
    v.push(0x38);
    v.push(0x9e);
    v.push(0xf3);
    v.push(0x38);
    v.push(0x5c);
    v.push(0x11);
    v.push(0x2c);
    v.push(0x3b);
    v.push(0x51);
    v.push(0x9c);
    v.push(0x3d);
    v.push(0xbd);
    v.push(0xd6);
    v.push(0xc9);
    v.push(0x6c);
    v.push(0xaf);
    v.push(0x74);
    v.push(0xeb);
    v.push(0x85);
    v.push(0x5b);
    v.push(0x5e);
    v.push(0x56);
    v.push(0x14);
    v.push(0x2c);
    v.push(0xfc);
    proof {
        assert(v@ =~= drop_iv());
    }
    v
}

/// Midstate for the `witness` tag: the SHA-256 hash of its tag string.
pub open spec fn witness_iv() -> Seq<u8> {
    seq![
        0x14u8, 0x04u8, 0xaau8, 0xb1u8, 0x13u8, 0xf0u8, 0x8cu8, 0x62u8,
        0xf7u8, 0xa5u8, 0xe8u8, 0xabu8, 0x54u8, 0xd8u8, 0x46u8, 0xc1u8,
        0x1cu8, 0xa6u8, 0x8bu8, 0x30u8, 0x44u8, 0x1fu8, 0x46u8, 0xdeu8,
        0xf0u8, 0x91u8, 0xb1u8, 0xf8u8, 0x84u8, 0xb2u8, 0xf2u8, 0xc8u8,
    ]
}

/// The `witness` tag midstate as bytes.
pub fn witness_midstate() -> (r: Vec<u8>)
    ensures
        r@ == witness_iv(),
        r@.len() == 32,
{
    let mut v: Vec<u8> = Vec::new();
    v.push(0x14);
    v.push(0x04);
    v.push(0xaa);
    v.push(0xb1);
    v.push(0x13);
    v.push(0xf0);
    v.push(0x8c);
    v.push(0x62);
    v.push(0xf7);
    v.push(0xa5);
    v.push(0xe8);
    v.push(0xab);
    v.push(0x54);
    v.push(0xd8);
    v.push(0x46);
    v.push(0xc1);
    v.push(0x1c);
    v.push(0xa6);
    v.push(0x8b);
    v.push(0x30);
    v.push(0x44);
    v.push(0x1f);
    v.push(0x46);
    v.push(0xde);
    v.push(0xf0);
    v.push(0x91);
    v.push(0xb1);
    v.push(0xf8);
    v.push(0x84);
    v.push(0xb2);
    v.push(0xf2);
    v.push(0xc8);
    proof {
        assert(v@ =~= witness_iv());
    }
    v
}

/// Midstate for the `disconnect` tag: the SHA-256 hash of its tag string.
pub open spec fn disconnect_iv() -> Seq<u8> {
    seq![
        0x21u8, 0x4du8, 0x2au8, 0xd6u8, 0x91u8, 0x9au8, 0x3cu8, 0x96u8,
        0xd0u8, 0xa3u8, 0xdfu8, 0xd5u8, 0x8cu8, 0xefu8, 0x9du8, 0xc8u8,
        0x95u8, 0x9cu8, 0xbfu8, 0x08u8, 0xf4u8, 0xacu8, 0x75u8, 0xfeu8,
        0xb9u8, 0xb7u8, 0x14u8, 0xc3u8, 0xc1u8, 0x5cu8, 0xdeu8, 0x64u8,
    ]
}

/// The `disconnect` tag midstate as bytes.
pub fn disconnect_midstate() -> (r: Vec<u8>)
    ensures
        r@ == disconnect_iv(),
        r@.len() == 32,
{
    let mut v: Vec<u8> = Vec::new();
    v.push(0x21);
    v.push(0x4d);
    v.push(0x2a);
    v.push(0xd6);
    v.push(0x91);
    v.push(0x9a);
    v.push(0x3c);
    v.push(0x96);
    v.push(0xd0);
    v.push(0xa3);
    v.push(0xdf);
    v.push(0xd5);
    v.push(0x8c);
    v.push(0xef);
    v.push(0x9d);
    v.push(0xc8);
    v.push(0x95);
    v.push(0x9c);
    v.push(0xbf);
    v.push(0x08);
    v.push(0xf4);
    v.push(0xac);
    v.push(0x75);
    v.push(0xfe);
    v.push(0xb9);
    v.push(0xb7);
    v.push(0x14);
    v.push(0xc3);
    v.push(0xc1);
    v.push(0x5c);
    v.push(0xde);
    v.push(0x64);
    proof {
        assert(v@ =~= disconnect_iv());
    }
    v
}

/// Midstate for the `fail` tag: the SHA-256 hash of its tag string.
pub open spec fn fail_iv() -> Seq<u8> {
    seq![
        0xfbu8, 0x14u8, 0x1au8, 0x3du8, 0xdfu8, 0xcau8, 0xacu8, 0xfeu8,
        0x6au8, 0x61u8, 0x8cu8, 0x6fu8, 0x75u8, 0xbbu8, 0x09u8, 0xa0u8,
        0xf9u8, 0xb2u8, 0x1du8, 0x51u8, 0x4fu8, 0x8bu8, 0x2fu8, 0xe9u8,
        0x2bu8, 0xe9u8, 0x7cu8, 0x4eu8, 0x1bu8, 0x66u8, 0x57u8, 0xadu8,
    ]
}

/// The `fail` tag midstate as bytes.
pub fn fail_midstate() -> (r: Vec<u8>)
    ensures
        r@ == fail_iv(),
        r@.len() == 32,
{
    let mut v: Vec<u8> = Vec::new();
    v.push(0xfb);
    v.push(0x14);
    v.push(0x1a);
    v.push(0x3d);
    v.push(0xdf);
    v.push(0xca);
    v.push(0xac);
    v.push(0xfe);
    v.push(0x6a);
    v.push(0x61);
    v.push(0x8c);
    v.push(0x6f);
    v.push(0x75);
    v.push(0xbb);
    v.push(0x09);
    v.push(0xa0);
    v.push(0xf9);
    v.push(0xb2);
    v.push(0x1d);
    v.push(0x51);
    v.push(0x4f);
    v.push(0x8b);
    v.push(0x2f);
    v.push(0xe9);
    v.push(0x2b);
    v.push(0xe9);
    v.push(0x7c);
    v.push(0x4e);
    v.push(0x1b);
    v.push(0x66);
    v.push(0x57);
    v.push(0xad);
    proof {
        assert(v@ =~= fail_iv());
    }
    v
}

/// Midstate for the `word` tag: the SHA-256 hash of its tag string.
pub open spec fn word_iv() -> Seq<u8> {
    seq![
        0x13u8, 0xf4u8, 0x68u8, 0xa9u8, 0xccu8, 0xb4u8, 0x58u8, 0x78u8,
        0x3au8, 0xf4u8, 0xeau8, 0x4cu8, 0xe3u8, 0xa3u8, 0x7cu8, 0x2du8,
        0x54u8, 0x95u8, 0xc3u8, 0x6cu8, 0x16u8, 0x77u8, 0x09u8, 0x52u8,
        0x28u8, 0x6du8, 0x5fu8, 0xafu8, 0x7fu8, 0xdcu8, 0xd0u8, 0x76u8,
    ]
}

/// The `word` tag midstate as bytes.
pub fn word_midstate() -> (r: Vec<u8>)
    ensures
        r@ == word_iv(),
        r@.len() == 32,
{
    let mut v: Vec<u8> = Vec::new();
    v.push(0x13);
    v.push(0xf4);
    v.push(0x68);
    v.push(0xa9);
    v.push(0xcc);
    v.push(0xb4);
    v.push(0x58);
    v.push(0x78);
    v.push(0x3a);
    v.push(0xf4);
    v.push(0xea);
    v.push(0x4c);
    v.push(0xe3);
    v.push(0xa3);
    v.push(0x7c);
    v.push(0x2d);
    v.push(0x54);
    v.push(0x95);
    v.push(0xc3);
    v.push(0x6c);
    v.push(0x16);
    v.push(0x77);
    v.push(0x09);
    v.push(0x52);
    v.push(0x28);
    v.push(0x6d);
    v.push(0x5f);
    v.push(0xaf);
    v.push(0x7f);
    v.push(0xdc);
    v.push(0xd0);
    v.push(0x76);
    proof {
        assert(v@ =~= word_iv());
    }
    v
}

/// Decode a 256-bit hash from bits.
#[verifier::loop_isolation(false)]
pub fn decode_hash(iter: &mut BitIter) -> (r: Result<Vec<u8>, Error>)
    ensures
        final(iter).stream() == old(iter).stream(),
        old(iter).pos() <= final(iter).pos() <= old(iter).stream().len(),
        match r {
            Ok(h) => {
                &&& h@.len() == 32
                &&& old(iter).pos() + 256 <= old(iter).stream().len()
                &&& final(iter).pos() == old(iter).pos() + 256
                &&& bytes_to_bits(h@) == old(iter).remaining().take(256)
            },
            Err(Error::EndOfStream) => old(iter).remaining().len() < 256,
            Err(_) => false,
        },
{
    proof {
        use_type_invariant(&*iter);
    }
    let ghost srem = iter.remaining();
    let mut h: Vec<u8> = Vec::new();
    let mut i: usize = 0;
    proof {
        assert(bytes_to_bits(h@) =~= srem.take(0));
    }
    while i < 32
        invariant
            0 <= i <= 32,
            iter.stream() == old(iter).stream(),
            iter.pos() == old(iter).pos() + 8 * i,
            old(iter).pos() + 8 * i <= old(iter).stream().len(),
            h@.len() == i,
            bytes_to_bits(h@) == srem.take(8 * i),
        decreases 32 - i,
    {
        let ghost h_old = h@;
        match iter.read_bits_be(8) {
            None => {
                return Err(Error::EndOfStream);
            },
            Some(n) => {
                h.push(n as u8);
            },
        }
        proof {
            crate::bits::lemma_bytes_to_bits_take(h@, h@.len() - 1);
            assert(h@.take(h@.len() as int) =~= h@);
            assert(h@.take(h@.len() - 1) =~= h_old);
            let seg = srem.subrange(8 * (i as int), 8 * (i as int) + 8);
            assert(seg =~= old(iter).stream().subrange(
                old(iter).pos() + 8 * (i as int),
                old(iter).pos() + 8 * (i as int) + 8,
            ));
            crate::bits::lemma_byte_to_bits_value(seg);
            assert(byte_to_bits(h@[h@.len() - 1]) == seg);
            assert(bytes_to_bits(h@) =~= srem.take(8 * (i + 1)));
        }
        i = i + 1;
    }
    Ok(h)
}

} // verus!
