use blake3_many::hazmat::{hash_derive_key_context, left_subtree_len};
use blake3_many::many;
use blake3_many::platform::{
    le_bytes_from_words_32, words_from_le_bytes_32, words_from_le_bytes_64, IncrementCounter,
    Platform,
};
use blake3_many::portable;
use blake3_many::spec::{
    CHUNK_END, CHUNK_START, IV, KEY_LEN, MSG_SCHEDULE, OUT_LEN, PARENT, ROOT,
};

const KEY: &[u8; KEY_LEN] = b"whats the Elvish word for friend";
const CONTEXT: &str = "BLAKE3 2019-12-27 16:29:52 test vectors context";

/// For each input length: the hash, the keyed hash and the derived key of the painted input.
const VECTORS: &[(usize, &str, &str, &str)] = &[
    (
        0,
        "af1349b9f5f9a1a6a0404dea36dcc9499bcb25c9adc112b7cc9a93cae41f3262",
        "92b2b75604ed3c761f9d6f62392c8a9227ad0ea3f09573e783f1498a4ed60d26",
        "2cc39783c223154fea8dfb7c1b1660f2ac2dcbd1c1de8277b0b0dd39b7e50d7d",
    ),
    (
        1,
        "2d3adedff11b61f14c886e35afa036736dcd87a74d27b5c1510225d0f592e213",
        "6d7878dfff2f485635d39013278ae14f1454b8c0a3a2d34bc1ab38228a80c95b",
        "b3e2e340a117a499c6cf2398a19ee0d29cca2bb7404c73063382693bf66cb06c",
    ),
    (
        63,
        "e9bc37a594daad83be9470df7f7b3798297c3d834ce80ba85d6e207627b7db7b",
        "bb1eb5d4afa793c1ebdd9fb08def6c36d10096986ae0cfe148cd101170ce37ae",
        "b6451e30b953c206e34644c6803724e9d2725e0893039cfc49584f991f451af3",
    ),
    (
        64,
        "4eed7141ea4a5cd4b788606bd23f46e212af9cacebacdc7d1f4c6dc7f2511b98",
        "ba8ced36f327700d213f120b1a207a3b8c04330528586f414d09f2f7d9ccb7e6",
        "a5c4a7053fa86b64746d4bb688d06ad1f02a18fce9afd3e818fefaa7126bf73e",
    ),
    (
        65,
        "de1e5fa0be70df6d2be8fffd0e99ceaa8eb6e8c93a63f2d8d1c30ecb6b263dee",
        "c0a4edefa2d2accb9277c371ac12fcdbb52988a86edc54f0716e1591b4326e72",
        "51fd05c3c1cfbc8ed67d139ad76f5cf8236cd2acd26627a30c104dfd9d3ff8a8",
    ),
    (
        1023,
        "10108970eeda3eb932baac1428c7a2163b0e924c9a9e25b35bba72b28f70bd11",
        "c951ecdf03288d0fcc96ee3413563d8a6d3589547f2c2fb36d9786470f1b9d6e",
        "74a16c1c3d44368a86e1ca6df64be6a2f64cce8f09220787450722d85725dea5",
    ),
    (
        1024,
        "42214739f095a406f3fc83deb889744ac00df831c10daa55189b5d121c855af7",
        "75c46f6f3d9eb4f55ecaaee480db732e6c2105546f1e675003687c31719c7ba4",
        "7356cd7720d5b66b6d0697eb3177d9f8d73a4a5c5e968896eb6a689684302706",
    ),
    (
        1025,
        "d00278ae47eb27b34faecf67b4fe263f82d5412916c1ffd97c8cb7fb814b8444",
        "357dc55de0c7e382c900fd6e320acc04146be01db6a8ce7210b7189bd664ea69",
        "effaa245f065fbf82ac186839a249707c3bddf6d3fdda22d1b95a3c970379bcb",
    ),
    (
        2048,
        "e776b6028c7cd22a4d0ba182a8bf62205d2ef576467e838ed6f2529b85fba24a",
        "879cf1fa2ea0e79126cb1063617a05b6ad9d0b696d0d757cf053439f60a99dd1",
        "7b2945cb4fef70885cc5d78a87bf6f6207dd901ff239201351ffac04e1088a23",
    ),
    (
        2049,
        "5f4d72f40d7a5f82b15ca2b2e44b1de3c2ef86c426c95c1af0b6879522563030",
        "9f29700902f7c86e514ddc4df1e3049f258b2472b6dd5267f61bf13983b78dd5",
        "2ea477c5515cc3dd606512ee72bb3e0e758cfae7232826f35fb98ca1bcbdf273",
    ),
    (
        3072,
        "b98cb0ff3623be03326b373de6b9095218513e64f1ee2edd2525c7ad1e5cffd2",
        "044a0e7b172a312dc02a4c9a818c036ffa2776368d7f528268d2e6b5df191770",
        "050df97f8c2ead654d9bb3ab8c9178edcd902a32f8495949feadcc1e0480c46b",
    ),
    (
        3073,
        "7124b49501012f81cc7f11ca069ec9226cecb8a2c850cfe644e327d22d3e1cd3",
        "68dede9bef00ba89e43f31a6825f4cf433389fedae75c04ee9f0cf16a427c95a",
        "72613c9ec9ff7e40f8f5c173784c532ad852e827dba2bf85b2ab4b76f7079081",
    ),
    (
        5157,
        "22ba8abad24764c4d253211846881c33cb0d8961cd5cd52d8899c139eb5b24c5",
        "4aecc942f9d82adee61873cc451127035e906045b12627f92c399bb26ea2f766",
        "93c8e75fe6a849e04d1e2d914708dc6a365f8f4b5db69c9a1852c883dc0051b8",
    ),
    (
        8193,
        "bab6c09cb8ce8cf459261398d2e7aef35700bf488116ceb94a36d0f5f1b7bc3b",
        "954a2a75420c8d6547e3ba5b98d963e6fa6491addc8c023189cc519821b4a1f5",
        "af1e0346e389b17c23200270a64aa4e1ead98c61695d917de7d5b00491c9b0f1",
    ),
    (
        16384,
        "f875d6646de28985646f34ee13be9a576fd515f76b5b0a26bb324735041ddde4",
        "9e9fc4eb7cf081ea7c47d1807790ed211bfec56aa25bb7037784c13c4b707b0d",
        "160e18b5878cd0df1c3af85eb25a0db5344d43a6fbd7a8ef4ed98d0714c3f7e1",
    ),
    (
        31744,
        "62b6960e1a44bcc1eb1a611a8d6235b6b4b78f32e7abc4fb4c6cdcce94895c47",
        "efa53b389ab67c593dba624d898d0f7353ab99e4ac9d42302ee64cbf9939a419",
        "39772aef80e0ebe60596361e45b061e8f417429d529171b6764468c22928e28e",
    ),
    (
        102400,
        "bc3e3d41a1146b069abffad3c0d44860cf664390afce4d9661f7902e7943e085",
        "1c35d1a5811083fd7119f5d5d1ba027b4d01c0c6c49fb6ff2cf75393ea5db4a7",
        "4652cff7a3f385a6103b5c260fc1593e13c778dbe608efb092fe7ee69df6e9c6",
    ),
];

fn painted(len: usize) -> Vec<u8> {
    (0..len).map(|i| (i % 251) as u8).collect()
}

fn hex(bytes: &[u8]) -> String {
    bytes.iter().map(|b| format!("{:02x}", b)).collect()
}

#[test]
fn single_inputs_match_the_vectors() {
    for &(len, plain, keyed, derived) in VECTORS {
        let input = painted(len);
        assert_eq!(hex(blake3_many::hash(&input).as_bytes()), plain);
        assert_eq!(hex(blake3_many::keyed_hash(KEY, &input).as_bytes()), keyed);
        assert_eq!(hex(&blake3_many::derive_key(CONTEXT, &input)), derived);
    }
}

#[test]
fn batches_match_the_vectors() {
    for &(len, plain, keyed, derived) in VECTORS {
        let input = painted(len);
        for batch_size in [1usize, 7, 8, 9, 19] {
            let inputs: Vec<&[u8]> = vec![&input; batch_size];
            let mut out = vec![blake3_many::Hash::from_bytes([0; OUT_LEN]); batch_size];
            assert!(many::hash(&inputs, &mut out));
            for h in &out {
                assert_eq!(hex(h.as_bytes()), plain);
            }
            assert!(many::keyed_hash(KEY, &inputs, &mut out));
            for h in &out {
                assert_eq!(hex(h.as_bytes()), keyed);
            }
            let mut raw = vec![[0u8; OUT_LEN]; batch_size];
            assert!(many::derive_key(CONTEXT, &inputs, &mut raw));
            for k in &raw {
                assert_eq!(hex(k), derived);
            }
        }
    }
}

#[test]
fn hash_of_abc() {
    assert_eq!(
        hex(blake3_many::hash(b"abc").as_bytes()),
        "6437b3ac38465133ffb63b75273a8db548c558465d79db03fd359c6cd5bd9d85"
    );
}

#[test]
fn contexts_are_hashed_as_utf8() {
    assert_eq!(
        hex(&hash_derive_key_context("caf\u{e9}")),
        "dc1199ea2f047d3eda3902375ef1e6700b6aece393f27ec845957a48bc14a856"
    );
    assert_eq!(
        hex(&blake3_many::derive_key("caf\u{e9}", b"material")),
        "944656b60b8c928c2270d347bff1de797ad2e2b7a74be943957fd4a28eb5b8ae"
    );
}

#[test]
fn one_compression() {
    let mut cv = IV;
    let block: [u8; 64] = std::array::from_fn(|i| i as u8);
    portable::compress_in_place(&mut cv, &block, 17, 0x1_0000_0005, 11);
    assert_eq!(
        cv,
        [
            1360908977, 3636222337, 1594015366, 2568791426,
            1212346334, 3323254526, 2695357903, 4095738499
        ]
    );
}

#[test]
fn every_platform_gives_the_same_hashes() {
    let buf = painted(3000 * 8);
    for len in [0usize, 5, 64, 100, 1024, 1025, 2500] {
        for n in 1..=8usize {
            let inputs: Vec<&[u8]> = (0..n).map(|i| &buf[3000 * i..][..len]).collect();
            let mut narrow = vec![[0u8; OUT_LEN]; n];
            let mut wide = vec![[1u8; OUT_LEN]; n];
            many::hash_batch_group(&Platform::Portable, &inputs, len, &IV, 0, &mut narrow);
            many::hash_batch_group(&Platform::AVX2, &inputs, len, &IV, 0, &mut wide);
            assert_eq!(narrow, wide);
            for i in 0..n {
                assert_eq!(blake3_many::hash(inputs[i]).as_bytes(), &narrow[i]);
            }
        }
    }
    assert_eq!(Platform::Portable.simd_degree(), 1);
    assert_eq!(Platform::AVX2.simd_degree(), 8);
    assert_eq!(Platform::detect(), Platform::AVX2);
}

#[test]
fn compress_many_on_every_platform() {
    let buf = painted(19 * 64);
    for n in 0..=19usize {
        let blocks: Vec<[u8; 64]> = (0..n)
            .map(|i| buf[64 * i..][..64].try_into().unwrap())
            .collect();
        let start: Vec<[u32; 8]> = (0..n).map(|i| IV.map(|w| w ^ i as u32)).collect();
        let mut want = start.clone();
        for i in 0..n {
            portable::compress_in_place(&mut want[i], &blocks[i], 33, 7, 3);
        }
        for platform in [Platform::Portable, Platform::AVX2] {
            let mut cvs = start.clone();
            platform.compress_many(&mut cvs, &blocks, 33, 7, 3);
            assert_eq!(cvs, want);
        }
    }
}

#[test]
fn a_batch_in_two_parts_is_the_batch_at_once() {
    let buf = painted(2000);
    let inputs: Vec<&[u8]> = (0..13).map(|i| &buf[i..][..1500]).collect();
    let zero = blake3_many::Hash::from_bytes([0; OUT_LEN]);
    let mut whole = vec![zero; 13];
    let mut parts = vec![zero; 13];
    assert!(many::hash(&inputs, &mut whole));
    assert!(many::hash(&inputs[..5], &mut parts[..5]));
    assert!(many::hash(&inputs[5..], &mut parts[5..]));
    assert_eq!(whole, parts);
}

#[test]
fn an_input_does_not_care_about_its_neighbours() {
    let (a, b, c) = ([1u8; 70], [2u8; 70], [3u8; 70]);
    let zero = blake3_many::Hash::from_bytes([0; OUT_LEN]);
    let mut first = [zero; 2];
    let mut second = [zero; 3];
    assert!(many::hash(&[&a[..], &b[..]], &mut first));
    assert!(many::hash(&[&c[..], &c[..], &a[..]], &mut second));
    assert_eq!(first[0], second[2]);
    assert_eq!(second[0], second[1]);
    assert_ne!(first[0], first[1]);
}

#[test]
fn refused_batches_write_nothing() {
    let mark = blake3_many::Hash::from_bytes([9; OUT_LEN]);
    let (a, b) = ([1u8; 70], [2u8; 71]);
    let mut out = [mark; 3];
    // The lengths differ in the last place only.
    assert!(!many::hash(&[&a[..], &a[..], &b[..]], &mut out));
    // Too few and too many outputs.
    assert!(!many::keyed_hash(KEY, &[&a[..], &a[..], &a[..]], &mut out[..2]));
    assert!(!many::hash(&[], &mut out));
    assert_eq!(out, [mark; 3]);
    let mut raw = [[9u8; OUT_LEN]; 1];
    assert!(!many::derive_key("ctx", &[&a[..], &a[..]], &mut raw));
    assert_eq!(raw, [[9u8; OUT_LEN]; 1]);
}

#[test]
fn left_subtrees() {
    for (len, left) in [
        (1025u64, 1024u64),
        (2048, 1024),
        (2049, 2048),
        (3072, 2048),
        (4096, 2048),
        (4097, 4096),
        (5157, 4096),
        (102400, 65536),
        (1 << 40, 1 << 39),
        ((1 << 40) + 1, 1 << 40),
        (u64::MAX, 1 << 63),
    ] {
        assert_eq!(left_subtree_len(len), left);
    }
}

#[test]
fn words_and_bytes() {
    let words = words_from_le_bytes_32(KEY);
    assert_eq!(
        words,
        [
            1952540791, 1752440947, 1816469605, 1752394102, 1919907616, 1868963940, 1919295602,
            1684956521,
        ]
    );
    assert_eq!(&le_bytes_from_words_32(&words), KEY);
    let block: [u8; 64] = std::array::from_fn(|i| (255 - i) as u8);
    let words = words_from_le_bytes_64(&block);
    assert_eq!(words[0], 0xFCFD_FEFF);
    assert_eq!(words[15], 0xC0C1_C2C3);
}

#[test]
fn the_schedule_permutes() {
    for r in 0..7 {
        let mut seen = [false; 16];
        for k in 0..16 {
            seen[MSG_SCHEDULE[r][k]] = true;
            if r > 0 {
                assert_eq!(MSG_SCHEDULE[r][k], MSG_SCHEDULE[r - 1][MSG_SCHEDULE[1][k]]);
            }
        }
        assert_eq!(seen, [true; 16]);
    }
}

#[test]
fn a_tree_over_numbered_chunks() {
    // Three chunks: the first two have a parent, which is the left child of the root.
    let input = painted(3 * 1024);
    let chunks: Vec<&[u8; 1024]> = (0..3)
        .map(|k| input[1024 * k..][..1024].try_into().unwrap())
        .collect();
    let mut cvs = [0u8; 3 * 32];
    portable::hash_many(&chunks, &IV, 0, IncrementCounter::Yes, 0, CHUNK_START, CHUNK_END, &mut cvs);
    let mut node = IV;
    portable::compress_in_place(&mut node, cvs[..64].try_into().unwrap(), 64, 0, PARENT);
    let mut top = [0u8; 64];
    top[..32].copy_from_slice(&le_bytes_from_words_32(&node));
    top[32..].copy_from_slice(&cvs[64..]);
    let mut root = IV;
    portable::compress_in_place(&mut root, &top, 64, 0, PARENT | ROOT);
    assert_eq!(&le_bytes_from_words_32(&root), blake3_many::hash(&input).as_bytes());
}
