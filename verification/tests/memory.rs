use stack_lang::memory::Memory;

#[test]
fn test_memory() {
    let mut memory = Memory::new();
    assert_eq!(memory.buffer(), &Vec::<u8>::new());
    assert_eq!(memory.free_list(), &vec![(0, usize::MAX)]);
    let address = memory.extend(&[1, 1, 1, 1]);
    assert_eq!(address, 0);
    let address = memory.extend(&[2, 2, 2]);
    assert_eq!(address, 4);
    let address = memory.push(3);
    assert_eq!(address, 7);
    assert_eq!(memory.buffer(), &vec![1, 1, 1, 1, 2, 2, 2, 3]);
    assert_eq!(memory.free_list(), &vec![(8, usize::MAX - 8)]);
    memory.remove(1, 4);
    assert_eq!(memory.buffer(), &vec![1, 0, 0, 0, 0, 2, 2, 3]);
    assert_eq!(memory.free_list(), &vec![(1, 4), (8, usize::MAX - 8)]);
    let address = memory.push(4);
    assert_eq!(address, 1);
    assert_eq!(memory.buffer(), &vec![1, 4, 0, 0, 0, 2, 2, 3]);
    assert_eq!(memory.free_list(), &vec![(2, 3), (8, usize::MAX - 8)]);
    let address = memory.extend(&[5]);
    assert_eq!(address, 2);
    assert_eq!(memory.buffer(), &vec![1, 4, 5, 0, 0, 2, 2, 3]);
    assert_eq!(memory.free_list(), &vec![(3, 2), (8, usize::MAX - 8)]);
    let address = memory.extend(&[6, 6, 6]);
    assert_eq!(address, 8);
    assert_eq!(memory.buffer(), &vec![1, 4, 5, 0, 0, 2, 2, 3, 6, 6, 6]);
    assert_eq!(memory.free_list(), &vec![(3, 2), (11, usize::MAX - 11)]);
    let address = memory.extend(&[7, 7]);
    assert_eq!(address, 3);
    assert_eq!(memory.buffer(), &vec![1, 4, 5, 7, 7, 2, 2, 3, 6, 6, 6]);
    assert_eq!(memory.free_list(), &vec![(11, usize::MAX - 11)]);
    memory.remove(4, 1);
    let address = memory.push(8);
    assert_eq!(address, 4);
    assert_eq!(memory.buffer(), &vec![1, 4, 5, 7, 8, 2, 2, 3, 6, 6, 6]);
    assert_eq!(memory.free_list(), &vec![(11, usize::MAX - 11)]);
    let whole = memory.len();
    memory.remove(0, whole);
    assert_eq!(memory.buffer(), &vec![0, 0, 0, 0, 0, 0, 0, 0, 0, 0, 0]);
    assert_eq!(memory.free_list(), &vec![(0, usize::MAX)]);

    let mut memory = Memory::new();
    memory.allocate(5);
    assert_eq!(memory.buffer(), &vec![0, 0, 0, 0, 0]);
    // The reserved range leaves the free list, which now starts behind it.
    assert_eq!(memory.free_list(), &vec![(5, usize::MAX - 5)]);
}

#[test]
fn memory_get_and_set() {
    let mut memory = Memory::new();
    memory.extend(&[10, 20, 30]);
    assert_eq!(memory.get(0), Some(&10));
    assert_eq!(memory.get(2), Some(&30));
    assert_eq!(memory.get(3), None);
    memory.set(1, 99);
    assert_eq!(memory.get(1), Some(&99));
}

#[test]
fn memory_coalesces_multi_way_chains() {
    let mut memory = Memory::new();
    memory.extend(&[1, 2, 3, 4, 5, 6]);
    assert_eq!(memory.free_list(), &vec![(6, usize::MAX - 6)]);
    memory.remove(0, 2);
    memory.remove(4, 2);
    assert_eq!(memory.free_list(), &vec![(0, 2), (4, usize::MAX - 4)]);
    // Freeing the middle joins three extents into one.
    memory.remove(2, 2);
    assert_eq!(memory.free_list(), &vec![(0, usize::MAX)]);
}
