use summary_tree::integers::{Count, IntegersSummary, Sum};
use summary_tree::{SeekBias, Tree};

/// A small deterministic pseudo-random generator for the randomized
/// harness.
struct Lcg(u64);

impl Lcg {
    fn new(seed: u64) -> Self {
        let mut r = Lcg(seed ^ 0x9e3779b97f4a7c15);
        r.next_u32();
        r
    }

    fn next_u32(&mut self) -> u32 {
        self.0 = self
            .0
            .wrapping_mul(6364136223846793005)
            .wrapping_add(1442695040888963407);
        (self.0 >> 33) as u32
    }

    fn gen_range(&mut self, lo: usize, hi_exclusive: usize) -> usize {
        lo + (self.next_u32() as usize) % (hi_exclusive - lo)
    }

    fn gen_u16(&mut self) -> u16 {
        self.next_u32() as u16
    }
}

fn tree_items(tree: &Tree<u16>) -> Vec<u16> {
    let mut v = Vec::new();
    let mut it = tree.iter();
    while let Some(x) = it.next() {
        v.push(*x);
    }
    v
}

#[test]
fn test_extend_and_push() {
    let mut tree1 = Tree::new();
    tree1.extend((1..20).collect());

    let mut tree2 = Tree::new();
    tree2.extend((1..50).collect());

    tree1.push_tree(tree2);

    assert_eq!(tree_items(&tree1), (1..20).chain(1..50).collect::<Vec<u16>>());
}

#[test]
fn splice() {
    let mut tree = Tree::new();
    tree.extend((0..10).collect());
    tree.splice(&Count(2)..&Count(8), (20..23).collect());
    assert_eq!(tree_items(&tree), vec![0, 1, 20, 21, 22, 8, 9]);
}

#[test]
fn random() {
    for seed in 0..100u64 {
        let mut rng = Lcg::new(seed);

        let mut tree = Tree::<u16>::new();
        let count = rng.gen_range(0, 10);
        tree.extend((0..count).map(|_| rng.gen_u16()).collect());

        for _i in 0..100 {
            let end = rng.gen_range(0, tree.len::<Count>().0 + 1);
            let start = rng.gen_range(0, end + 1);
            let count = rng.gen_range(0, 3);
            let new_items = (0..count).map(|_| rng.gen_u16()).collect::<Vec<u16>>();
            let mut reference_items = tree_items(&tree);

            tree.splice(&Count(start)..&Count(end), new_items.clone());
            reference_items.splice(start..end, new_items);

            assert_eq!(tree_items(&tree), reference_items);

            let mut cursor = tree.cursor();
            let suffix_start = rng.gen_range(0, tree.len::<Count>().0 + 1);
            let prefix_end = rng.gen_range(0, suffix_start + 1);

            let prefix_items = tree_items(&cursor.slice(&Count(prefix_end), SeekBias::Right));
            assert_eq!(prefix_items, reference_items[0..prefix_end].to_vec());

            // Scan to the start of the suffix if we aren't already there
            if suffix_start > prefix_end {
                for i in prefix_end..suffix_start {
                    assert_eq!(cursor.item(), reference_items.get(i));
                    assert_eq!(
                        cursor.prev_item(),
                        if i > 0 {
                            reference_items.get(i - 1)
                        } else {
                            None
                        }
                    );
                    assert_eq!(cursor.start::<Count>(), Count(i));
                    cursor.next();
                }
            }

            let suffix_items = tree_items(&cursor.slice(&tree.len::<Count>(), SeekBias::Right));
            assert_eq!(suffix_items, reference_items[suffix_start..].to_vec());
        }
    }
}

#[test]
fn cursor() {
    // Empty tree
    let tree = Tree::<u16>::new();
    let mut cursor = tree.cursor();
    assert_eq!(cursor.slice(&Sum(0), SeekBias::Right), Tree::new());
    assert_eq!(cursor.item(), None);
    assert_eq!(cursor.prev_item(), None);
    assert_eq!(cursor.start::<Count>(), Count(0));
    assert_eq!(cursor.start::<Sum>(), Sum(0));

    // Single-element tree
    let mut tree = Tree::<u16>::new();
    tree.extend(vec![1]);
    let mut cursor = tree.cursor();
    assert_eq!(cursor.slice(&Sum(0), SeekBias::Right), Tree::new());
    assert_eq!(cursor.item(), Some(&1));
    assert_eq!(cursor.prev_item(), None);
    assert_eq!(cursor.start::<Count>(), Count(0));
    assert_eq!(cursor.start::<Sum>(), Sum(0));

    cursor.next();
    assert_eq!(cursor.item(), None);
    assert_eq!(cursor.prev_item(), Some(&1));
    assert_eq!(cursor.start::<Count>(), Count(1));
    assert_eq!(cursor.start::<Sum>(), Sum(1));

    cursor.prev();
    assert_eq!(cursor.item(), Some(&1));
    assert_eq!(cursor.prev_item(), None);
    assert_eq!(cursor.start::<Count>(), Count(0));
    assert_eq!(cursor.start::<Sum>(), Sum(0));

    cursor.reset();
    assert_eq!(tree_items(&cursor.slice(&Sum(1), SeekBias::Right)), [1]);
    assert_eq!(cursor.item(), None);
    assert_eq!(cursor.prev_item(), Some(&1));
    assert_eq!(cursor.start::<Count>(), Count(1));
    assert_eq!(cursor.start::<Sum>(), Sum(1));

    cursor.seek(&Sum(0), SeekBias::Right);
    assert_eq!(
        tree_items(&cursor.slice(&tree.len::<Count>(), SeekBias::Right)),
        [1]
    );
    assert_eq!(cursor.item(), None);
    assert_eq!(cursor.prev_item(), Some(&1));
    assert_eq!(cursor.start::<Count>(), Count(1));
    assert_eq!(cursor.start::<Sum>(), Sum(1));

    // Multiple-element tree
    let mut tree = Tree::new();
    tree.extend(vec![1, 2, 3, 4, 5, 6]);
    let mut cursor = tree.cursor();

    assert_eq!(tree_items(&cursor.slice(&Sum(4), SeekBias::Right)), [1, 2]);
    assert_eq!(cursor.item(), Some(&3));
    assert_eq!(cursor.prev_item(), Some(&2));
    assert_eq!(cursor.start::<Count>(), Count(2));
    assert_eq!(cursor.start::<Sum>(), Sum(3));

    cursor.next();
    assert_eq!(cursor.item(), Some(&4));
    assert_eq!(cursor.prev_item(), Some(&3));
    assert_eq!(cursor.start::<Count>(), Count(3));
    assert_eq!(cursor.start::<Sum>(), Sum(6));

    cursor.next();
    assert_eq!(cursor.item(), Some(&5));
    assert_eq!(cursor.prev_item(), Some(&4));
    assert_eq!(cursor.start::<Count>(), Count(4));
    assert_eq!(cursor.start::<Sum>(), Sum(10));

    cursor.next();
    assert_eq!(cursor.item(), Some(&6));
    assert_eq!(cursor.prev_item(), Some(&5));
    assert_eq!(cursor.start::<Count>(), Count(5));
    assert_eq!(cursor.start::<Sum>(), Sum(15));

    cursor.next();
    cursor.next();
    assert_eq!(cursor.item(), None);
    assert_eq!(cursor.prev_item(), Some(&6));
    assert_eq!(cursor.start::<Count>(), Count(6));
    assert_eq!(cursor.start::<Sum>(), Sum(21));

    cursor.prev();
    assert_eq!(cursor.item(), Some(&6));
    assert_eq!(cursor.prev_item(), Some(&5));
    assert_eq!(cursor.start::<Count>(), Count(5));
    assert_eq!(cursor.start::<Sum>(), Sum(15));

    cursor.prev();
    assert_eq!(cursor.item(), Some(&5));
    assert_eq!(cursor.prev_item(), Some(&4));
    assert_eq!(cursor.start::<Count>(), Count(4));
    assert_eq!(cursor.start::<Sum>(), Sum(10));

    cursor.prev();
    assert_eq!(cursor.item(), Some(&4));
    assert_eq!(cursor.prev_item(), Some(&3));
    assert_eq!(cursor.start::<Count>(), Count(3));
    assert_eq!(cursor.start::<Sum>(), Sum(6));

    cursor.prev();
    assert_eq!(cursor.item(), Some(&3));
    assert_eq!(cursor.prev_item(), Some(&2));
    assert_eq!(cursor.start::<Count>(), Count(2));
    assert_eq!(cursor.start::<Sum>(), Sum(3));

    cursor.prev();
    assert_eq!(cursor.item(), Some(&2));
    assert_eq!(cursor.prev_item(), Some(&1));
    assert_eq!(cursor.start::<Count>(), Count(1));
    assert_eq!(cursor.start::<Sum>(), Sum(1));

    cursor.prev();
    assert_eq!(cursor.item(), Some(&1));
    assert_eq!(cursor.prev_item(), None);
    assert_eq!(cursor.start::<Count>(), Count(0));
    assert_eq!(cursor.start::<Sum>(), Sum(0));

    cursor.prev();
    assert_eq!(cursor.item(), None);
    assert_eq!(cursor.prev_item(), None);
    assert_eq!(cursor.start::<Count>(), Count(0));
    assert_eq!(cursor.start::<Sum>(), Sum(0));

    cursor.reset();
    assert_eq!(
        tree_items(&cursor.slice(&tree.len::<Count>(), SeekBias::Right)),
        tree_items(&tree)
    );
    assert_eq!(cursor.item(), None);
    assert_eq!(cursor.prev_item(), Some(&6));
    assert_eq!(cursor.start::<Count>(), Count(6));
    assert_eq!(cursor.start::<Sum>(), Sum(21));

    cursor.seek(&Count(3), SeekBias::Right);
    assert_eq!(
        tree_items(&cursor.slice(&tree.len::<Count>(), SeekBias::Right)),
        [4, 5, 6]
    );
    assert_eq!(cursor.item(), None);
    assert_eq!(cursor.prev_item(), Some(&6));
    assert_eq!(cursor.start::<Count>(), Count(6));
    assert_eq!(cursor.start::<Sum>(), Sum(21));

    // Seeking can bias left or right
    cursor.seek(&Sum(1), SeekBias::Left);
    assert_eq!(cursor.item(), Some(&1));
    cursor.seek(&Sum(1), SeekBias::Right);
    assert_eq!(cursor.item(), Some(&2));

    // Slicing without resetting starts from where the cursor is parked at.
    cursor.seek(&Sum(1), SeekBias::Right);
    assert_eq!(tree_items(&cursor.slice(&Sum(6), SeekBias::Right)), vec![2, 3]);
    assert_eq!(tree_items(&cursor.slice(&Sum(21), SeekBias::Left)), vec![4, 5]);
    assert_eq!(tree_items(&cursor.slice(&Sum(21), SeekBias::Right)), vec![6]);
}

#[test]
fn from_item_and_push() {
    let mut tree = Tree::from_item(7u16);
    assert_eq!(tree_items(&tree), vec![7]);
    tree.push(9);
    assert_eq!(tree_items(&tree), vec![7, 9]);
    assert_eq!(tree.last(), Some(&9));
}

#[test]
fn summary_and_len() {
    let mut tree = Tree::<u16>::new();
    assert_eq!(tree.last(), None);
    assert_eq!(tree.len::<Count>(), Count(0));
    tree.extend(vec![1, 2, 3]);
    assert_eq!(tree.len::<Count>(), Count(3));
    assert_eq!(tree.len::<Sum>(), Sum(6));
    assert_eq!(*tree.summary(), IntegersSummary { count: 3, sum: 6 });
}

#[test]
fn iter_empty() {
    let tree = Tree::<u16>::new();
    let mut it = tree.iter();
    assert_eq!(it.next(), None);
    assert_eq!(it.next(), None);
}

#[test]
fn splice_beyond_bounds() {
    let mut tree = Tree::<u16>::new();
    tree.extend(vec![1, 2, 3]);
    tree.splice(&Count(1)..&Count(10), Vec::new());
    assert_eq!(tree_items(&tree), vec![1]);

    let mut tree = Tree::<u16>::new();
    tree.extend(vec![1, 2, 3]);
    tree.splice(&Count(0)..&Count(0), vec![9]);
    assert_eq!(tree_items(&tree), vec![9, 1, 2, 3]);
}

#[test]
fn seek_bias_at_boundaries() {
    let mut tree = Tree::<u16>::new();
    tree.extend(vec![2, 0, 4]);
    let mut cursor = tree.cursor();
    // Sum coordinates: the running totals are 2, 2, 6; a Left seek to
    // 2 stops on the first item ending there, a Right seek passes both
    // it and the zero-measure item after it.
    cursor.seek(&Sum(2), SeekBias::Left);
    assert_eq!(cursor.item(), Some(&2));
    assert_eq!(cursor.start::<Count>(), Count(0));
    cursor.seek(&Sum(2), SeekBias::Right);
    assert_eq!(cursor.item(), Some(&4));
    assert_eq!(cursor.start::<Count>(), Count(2));
}

#[test]
fn push_tree_onto_taller() {
    let mut tall = Tree::<u16>::new();
    tall.extend((0..30).collect());
    let mut short = Tree::<u16>::new();
    short.extend(vec![100, 101]);
    let mut combined = short.clone();
    combined.push_tree(tall.clone());
    assert_eq!(
        tree_items(&combined),
        vec![100, 101]
            .into_iter()
            .chain(0..30)
            .collect::<Vec<u16>>()
    );
}
