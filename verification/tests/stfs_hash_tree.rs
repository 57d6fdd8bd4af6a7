use iso2x::stfs::format::Level;
use iso2x::stfs::hash_tree::{
    BlockLink, HashTreeBuilder, BLOCKS_HASHED_TRAILER_OFFSET, ENTRIES_PER_TABLE, RECORD_SIZE,
};
use sha1::Digest;

fn hash_table(table: &[u8]) -> [u8; 20] {
    sha1::Sha1::digest(table).into()
}

const END_OF_CHAIN: u32 = 0x00FF_FFFF;

fn block(fill: u8) -> Vec<u8> {
    vec![fill; 0x1000]
}

#[test]
fn level_zero_hashes_blocks_directly_into_the_top_table() {
    let mut builder = HashTreeBuilder::new(Level::Zero, 3);
    for i in 0..3u32 {
        builder.hash_block(
            i,
            &block(i as u8),
            BlockLink {
                status: 0x80,
                next_block: if i == 2 { END_OF_CHAIN } else { i + 1 },
            },
        );
    }
    let tree = builder.finish();

    assert!(tree.level0.is_empty());
    assert!(tree.level1.is_empty());

    for i in 0..3u32 {
        let expected_hash: [u8; 20] = sha1::Sha1::digest(block(i as u8)).into();
        let off = i as usize * RECORD_SIZE;
        assert_eq!(&tree.top[off..off + 20], &expected_hash);
        assert_eq!(tree.top[off + 20], 0x80);
    }
    let off2 = 2 * RECORD_SIZE;
    assert_eq!(&tree.top[off2 + 21..off2 + 24], &[0xFF, 0xFF, 0xFF]);
    assert_eq!(&tree.top[0 + 21..0 + 24], &[0x00, 0x00, 0x01]);
    assert_eq!(
        &tree.top[BLOCKS_HASHED_TRAILER_OFFSET..BLOCKS_HASHED_TRAILER_OFFSET + 4],
        &[0, 0, 0, 0]
    );

    assert_eq!(tree.top_hash, hash_table(&tree.top));
}

#[test]
fn level_one_chains_level0_table_hashes_into_the_top() {
    let total_blocks = ENTRIES_PER_TABLE + 5;
    let mut builder = HashTreeBuilder::new(Level::One, total_blocks);
    for i in 0..total_blocks {
        builder.hash_block(
            i,
            &block((i % 256) as u8),
            BlockLink {
                status: 0x80,
                next_block: i + 1,
            },
        );
    }
    let tree = builder.finish();

    assert_eq!(tree.level0.len(), 2);
    assert!(tree.level1.is_empty());

    for (i, l0_table) in tree.level0.iter().enumerate() {
        let expected = hash_table(l0_table);
        let off = i * RECORD_SIZE;
        assert_eq!(&tree.top[off..off + 20], &expected);
        assert_eq!(tree.top[off + 20], 0x80);
    }

    assert_eq!(
        &tree.top[BLOCKS_HASHED_TRAILER_OFFSET..BLOCKS_HASHED_TRAILER_OFFSET + 4],
        &total_blocks.to_be_bytes()
    );
    assert_eq!(tree.top_hash, hash_table(&tree.top));
}

#[test]
fn level_two_nests_level1_tables_under_the_top() {
    let total_blocks = ENTRIES_PER_TABLE * 2 + 3;
    let mut builder = HashTreeBuilder::new(Level::Two, total_blocks);
    for i in 0..total_blocks {
        builder.hash_block(
            i,
            &block(0xAB),
            BlockLink {
                status: 0x80,
                next_block: i + 1,
            },
        );
    }
    let tree = builder.finish();

    assert_eq!(tree.level0.len(), 3);
    assert_eq!(tree.level1.len(), 1);

    let expected_l1_hash = hash_table(&tree.level1[0]);
    assert_eq!(&tree.top[0..20], &expected_l1_hash);

    assert_eq!(
        &tree.level1[0][BLOCKS_HASHED_TRAILER_OFFSET..BLOCKS_HASHED_TRAILER_OFFSET + 4],
        &total_blocks.to_be_bytes()
    );
    assert_eq!(
        &tree.top[BLOCKS_HASHED_TRAILER_OFFSET..BLOCKS_HASHED_TRAILER_OFFSET + 4],
        &total_blocks.to_be_bytes()
    );
    assert_eq!(tree.top_hash, hash_table(&tree.top));
}
