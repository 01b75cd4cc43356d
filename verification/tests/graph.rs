use grin_cuckatoo_miner::keys::derive_keys;
use grin_cuckatoo_miner::siphash::{endpoint, siphash24, GpuSipKeys, SipKeys};
use grin_cuckatoo_miner::verify::{verify_cycle, Proof};

#[test]
fn optimized_endpoint_is_masked_siphash() {
    let keys = SipKeys {
        k0: 1,
        k1: 2,
        k2: 3,
        k3: 4,
    };
    assert_eq!(
        endpoint(keys, 20, 7, 1),
        (siphash24(keys, 15) & ((1 << 20) - 1)) as u32
    );
}

#[test]
fn matches_native_range_harness() {
    let keys = derive_keys(&[0], 0);
    assert_eq!(keys.k0, 0xf2f4_1b02_a8b7_8751);
    assert_eq!(keys.k1, 0xe1ec_cf54_3aea_04c0);
    assert_eq!(keys.k2, 0x6323_4d62_c711_4f75);
    assert_eq!(keys.k3, 0x1e44_d1dd_4fcf_f4c7);
}

const NONCE_45: [u64; 42] = [
    113834002, 175464874, 214250696, 260483081, 279835969, 298338403, 319521892, 416749607,
    478585563, 496642789, 543585876, 553445468, 611349361, 786110984, 851260400, 875914375,
    1185481902, 1210858959, 1489536276, 1528899199, 1646662212, 1691906112, 1897278521, 1906375855,
    2396865210, 2657593731, 2814677804, 2844237190, 2951901179, 3078404053, 3206629131, 3219415784,
    3222789694, 3256659650, 3518924379, 3634906144, 3778533919, 3871344428, 3884396807, 3916620735,
    3996475271, 4266550641,
];
const NONCE_74: [u64; 42] = [
    214230679, 223185705, 244015894, 468650174, 667618686, 727065687, 761796471, 892321202,
    998276703, 1063542673, 1067574420, 1090012996, 1297340770, 1316216345, 1483296014, 1571974979,
    1726910084, 1745427983, 1757737325, 1965603751, 2086566586, 2171184816, 2351364403, 2573372611,
    2605077018, 2614064261, 2903644688, 3014168874, 3070395929, 3154431639, 3227693524, 3298173101,
    3379248045, 3390587362, 3427810150, 3434087339, 3476427957, 3479202442, 3541814557, 3770567624,
    4045656206, 4132800603,
];

#[test]
fn verifies_both_known_c32_gate_proofs() {
    for (nonce, proof) in [(45, NONCE_45), (74, NONCE_74)] {
        verify_cycle(
            derive_keys(&[0], nonce),
            32,
            42,
            &Proof {
                nonces: proof.to_vec(),
            },
        )
        .unwrap();
    }
}

#[test]
fn rejects_mutated_gate_proof() {
    let mut proof = NONCE_45;
    proof[0] += 1;
    assert!(verify_cycle(
        derive_keys(&[0], 45),
        32,
        42,
        &Proof {
            nonces: proof.to_vec()
        },
    )
    .is_err());
}

#[test]
fn shader_words_split_each_key() {
    let words = GpuSipKeys::from(SipKeys {
        k0: 0x1111_2222_3333_4444,
        k1: 2,
        k2: 0xffff_ffff_0000_0000,
        k3: 4,
    })
    .words;
    assert_eq!(
        words,
        [0x3333_4444, 0x1111_2222, 2, 0, 0, 0xffff_ffff, 4, 0]
    );
}
