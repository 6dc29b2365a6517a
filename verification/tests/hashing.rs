//! Hashes, Merkle trees, transcripts and the statement digest.
use flock_core::challenger::fs::digest_has_leading_zeros;
use flock_core::challenger::fs_count::{reset, snapshot, FsCounts};
use flock_core::challenger::{Challenger, FsChallenger};
use flock_core::field::F128;
use flock_core::hash::{sha256_digest, Hash32};
use flock_core::merkle::{
    f128_slice_to_bytes, hash_eq, hash_leaf, merkle_multi_proof, merkle_tree,
    verify_merkle_multi_proof,
};
use flock_core::pcs::{Commitment, PcsParams};
use flock_core::r1cs::{BlockR1cs, SparseBinaryMatrix};
use flock_core::statement::bind_statement;
use sha2::Digest;

fn sha(bytes: &[u8]) -> Hash32 {
    sha2::Sha256::digest(bytes).into()
}

/// The digest of "abc".
#[test]
fn sha256_known_value() {
    let d = sha256_digest(b"abc");
    assert_eq!(&d[..8], &[0xba, 0x78, 0x16, 0xbf, 0x8f, 0x01, 0xcf, 0xea]);
    assert_eq!(d, sha(b"abc"));
    assert_eq!(sha256_digest(b""), sha(b""));
}

/// A tree is its leaves, then each level of parents, then the root.
#[test]
fn tree_matches_direct_hashing() {
    let values: Vec<F128> = (0..8u64).map(|i| F128::new(i, 100 + i)).collect();
    let tree = merkle_tree(&values, 4);
    assert_eq!(tree.len(), 7);
    for i in 0..4 {
        assert_eq!(tree[i], hash_leaf(&f128_slice_to_bytes(&values[2 * i..2 * i + 2])));
    }
    let mut bytes = Vec::new();
    for v in &values[2..4] {
        bytes.extend_from_slice(&v.lo.to_le_bytes());
        bytes.extend_from_slice(&v.hi.to_le_bytes());
    }
    assert_eq!(tree[1], sha(&bytes));
    let parent = |l: &Hash32, r: &Hash32| sha(&[l.as_slice(), r.as_slice()].concat());
    assert_eq!(tree[4], parent(&tree[0], &tree[1]));
    assert_eq!(tree[5], parent(&tree[2], &tree[3]));
    assert_eq!(tree[6], parent(&tree[4], &tree[5]));
}

/// A multi-proof shows the opened leaves, and nothing else, to belong to the tree.
#[test]
fn multi_proof_roundtrip() {
    let values: Vec<F128> = (0..16u64).map(|i| F128::new(3 * i, i)).collect();
    let tree = merkle_tree(&values, 16);
    let root = tree[30];
    for positions in [vec![0usize], vec![1, 2, 9], vec![4, 5, 6, 7], (0..16).collect()] {
        let sibs = merkle_multi_proof(&tree, 16, &positions);
        let hashes: Vec<Hash32> = positions.iter().map(|&p| tree[p]).collect();
        assert!(verify_merkle_multi_proof(&root, 16, &positions, &hashes, &sibs));
        let mut bad = hashes.clone();
        bad[0][5] ^= 1;
        assert!(!verify_merkle_multi_proof(&root, 16, &positions, &bad, &sibs));
        let mut more = sibs.clone();
        more.push(root);
        assert!(!verify_merkle_multi_proof(&root, 16, &positions, &hashes, &more));
    }
    // Siblings are shared: all the leaves need none.
    assert_eq!(merkle_multi_proof(&tree, 16, &(0..16).collect::<Vec<_>>()).len(), 0);
    assert_eq!(merkle_multi_proof(&tree, 16, &vec![3]).len(), 4);
    assert!(hash_eq(&root, &tree[30]));
    assert!(!hash_eq(&root, &tree[29]));
}

/// The first challenge is read off `SHA256(transcript || 0)`.
#[test]
fn challenge_is_the_hash_of_the_transcript() {
    let mut ch = FsChallenger::new(b"dom");
    ch.observe_label(b"lab");
    ch.observe_f128(F128::new(7, 9));
    ch.observe_f128_slice(&[F128::new(1, 2)]);
    ch.observe_bytes(b"xy");
    let mut t: Vec<u8> = Vec::new();
    t.push(1);
    t.extend_from_slice(&3u64.to_le_bytes());
    t.extend_from_slice(b"dom");
    t.push(2);
    t.extend_from_slice(&3u64.to_le_bytes());
    t.extend_from_slice(b"lab");
    t.extend_from_slice(&[3, 1]);
    t.extend_from_slice(&7u64.to_le_bytes());
    t.extend_from_slice(&9u64.to_le_bytes());
    t.extend_from_slice(&[3, 2]);
    t.extend_from_slice(&1u64.to_le_bytes());
    t.extend_from_slice(&1u64.to_le_bytes());
    t.extend_from_slice(&2u64.to_le_bytes());
    t.push(5);
    t.extend_from_slice(&2u64.to_le_bytes());
    t.extend_from_slice(b"xy");
    assert_eq!(ch.absorbed_bytes(), t.len() as u64);
    t.extend_from_slice(&[4, 1]);
    let mut block = t.clone();
    block.extend_from_slice(&0u64.to_le_bytes());
    let h = sha(&block);
    let lo = u64::from_le_bytes(h[..8].try_into().unwrap());
    let hi = u64::from_le_bytes(h[8..16].try_into().unwrap());
    let mut other = ch.clone();
    assert_eq!(ch.sample_f128(), F128::new(lo, hi));
    assert_eq!(ch.absorbed_bytes(), t.len() as u64 + 16);
    // A clone goes its own way from the same state.
    assert_eq!(other.sample_f128(), F128::new(lo, hi));
    // The squeezed bytes are absorbed.
    t.extend_from_slice(&h[..16]);
    t.extend_from_slice(&[4, 2]);
    t.extend_from_slice(&3u64.to_le_bytes());
    let v = ch.sample_f128_vec(3);
    let mut second = t.clone();
    second.extend_from_slice(&1u64.to_le_bytes());
    let h = sha(&second);
    assert_eq!(v[2].lo, u64::from_le_bytes(h[..8].try_into().unwrap()));
}

/// Hash work is counted and can be counted anew.
#[test]
fn hash_work_is_counted() {
    let mut ch = FsChallenger::new(b"count");
    ch.sample_f128();
    ch.sample_f128_vec(5);
    let nonce = ch.grind_pow(4);
    let counts = ch.counts();
    assert_eq!(snapshot(&counts), (3, nonce + 1));
    assert_eq!(ch.grind_pow(0), 0);
    assert_eq!(snapshot(&ch.counts()), (4, nonce + 1));
    ch.verify_pow(0, 0);
    assert_eq!(snapshot(&ch.counts()), (5, nonce + 1));
    ch.verify_pow(7, 3);
    assert_eq!(snapshot(&ch.counts()), (6, nonce + 2));
    ch.reset_counts();
    assert_eq!(ch.counts(), FsCounts::new());
    let mut c = counts;
    reset(&mut c);
    assert_eq!(snapshot(&c), (0, 0));
}

/// Leading zeros are counted from the most significant bit of the first byte.
#[test]
fn leading_zeros() {
    let mut h: Hash32 = [0xff; 32];
    assert!(digest_has_leading_zeros(&h, 0));
    assert!(!digest_has_leading_zeros(&h, 1));
    h[0] = 0;
    h[1] = 0x1f;
    assert!(digest_has_leading_zeros(&h, 8));
    assert!(digest_has_leading_zeros(&h, 11));
    assert!(!digest_has_leading_zeros(&h, 12));
    let zero: Hash32 = [0; 32];
    assert!(digest_has_leading_zeros(&zero, 256));
    assert!(!digest_has_leading_zeros(&zero, 257));
}

fn instance(flip: bool) -> BlockR1cs {
    let id = |n: usize| SparseBinaryMatrix {
        num_rows: n,
        num_cols: n,
        rows: (0..n).map(|i| vec![i]).collect(),
    };
    let mut b = id(2);
    if flip {
        b.rows[1] = vec![0, 1];
    }
    BlockR1cs {
        m: 3,
        k_log: 1,
        k_skip: 1,
        useful_bits: 2,
        a_0: id(2),
        b_0: b,
        c_0: id(2),
        const_pin: None,
    }
}

/// The statement digest is the BLAKE3 hash of the parameters and the matrices.
#[test]
fn statement_digest_is_blake3_of_the_instance() {
    let r = instance(true);
    let mut t: Vec<u8> = b"flock-r1cs-stmt-v0".to_vec();
    for x in [3u64, 1, 1] {
        t.extend_from_slice(&x.to_le_bytes());
    }
    for rows in [vec![vec![0u64], vec![1]], vec![vec![0], vec![0, 1]], vec![vec![0], vec![1]]] {
        for x in [2u64, 2] {
            t.extend_from_slice(&x.to_le_bytes());
        }
        for row in rows {
            t.extend_from_slice(&(row.len() as u64).to_le_bytes());
            for x in row {
                t.extend_from_slice(&x.to_le_bytes());
            }
        }
    }
    assert_eq!(&r.statement_digest(), blake3::hash(&t).as_bytes());
    assert_ne!(r.statement_digest(), instance(false).statement_digest());
}

/// Binding a statement separates instances and commitments.
#[test]
fn bound_statements_diverge() {
    let params = PcsParams { m: 8, log_inv_rate: 1, log_batch_size: 1 };
    let c0 = Commitment { root: [0; 32], params };
    let mut c1 = c0;
    c1.root[31] = 1;
    let run = |r: &BlockR1cs, c: &Commitment| {
        let mut ch = FsChallenger::new(b"bind");
        bind_statement(&mut ch, r, c);
        ch.sample_f128()
    };
    let (r0, r1) = (instance(false), instance(true));
    assert_eq!(run(&r0, &c0), run(&r0, &c0));
    assert_ne!(run(&r0, &c0), run(&r1, &c0));
    assert_ne!(run(&r0, &c0), run(&r0, &c1));
}
