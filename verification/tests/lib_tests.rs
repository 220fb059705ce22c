use adaptive_radix_tree::art::ArtTree;
use adaptive_radix_tree::u64_art_map::u8_list_to_u64_key;

#[test]
fn it_works() {
    assert_eq!(2 + 2, 4);
}

#[test]
fn art_new_works() {
    let _ds = ArtTree::<u32>::new();
}

#[test]
fn art_search_works() {
    let ds = ArtTree::<u32>::new();

    let result = ds.get(&[1, 2, 3]);
    assert!(result.is_none());
}

#[test]
fn art_insert_to_empty_works() {
    let mut ds = ArtTree::<u32>::new();
    let key = [1, 2, 3];
    let value = 17;
    let result = ds.insert(&key, value);
    assert!(result.is_none());

    let get_back = ds.minimum();
    assert!(get_back.is_some());
}

#[test]
fn lib_art_minmax_with_two_works() {
    let mut ds = ArtTree::<u32>::new();
    let key = [1, 2, 3];
    let value = 17;
    let result = ds.insert(&key, value);
    println!("Result: {:?}", result);
    assert!(result.is_none());
    let key = [1, 3, 4];
    let value = 122;
    let result = ds.insert(&key, value);
    println!("Result: {:?}", result);
    assert!(result.is_none());

    let min_node = ds.minimum();
    assert!(min_node.is_some());
    assert_eq!(*min_node.unwrap().1, 17);
    let max_node = ds.maximum();
    assert!(max_node.is_some());
    assert_eq!(*max_node.unwrap().1, 122);
}

#[test]
fn lib_art_successive_insert_works() {
    let mut ds = ArtTree::<u32>::new();
    for i in 0..10 {
        let key = [i % 16, i % 8, i % 4, i % 2];
        let result = ds.insert(&key, i as u32);
        assert!(result.is_none());
    }

    let min_node = ds.minimum();
    assert!(min_node.is_some());
    assert_eq!(*min_node.unwrap().1, 0);
    let max_node = ds.maximum();
    assert!(max_node.is_some());
    assert_eq!(*max_node.unwrap().1, 9);
}

#[test]
fn lib_art_iterator_works() {
    let mut ds = ArtTree::<u32>::new();
    for i in 0..10 {
        let key = [i % 16, i % 8, i % 4, i % 2];
        let result = ds.insert(&key, i as u32);
        assert!(result.is_none());
    }

    let mut counter = 0;

    ds.iter(|val| {
        println!("Visiting {:}", val);
        counter += 1;
        false
    });

    assert_eq!(counter, 10);
}

#[test]
fn lib_art_delete_works() {
    let mut ds = ArtTree::new();
    let keys: Vec<_> = (0..3000u32)
        .map(|i| [(i % 10) as u8, (i % 20) as u8, (i % 50) as u8, (i % 256) as u8])
        .collect();
    for (i, key) in keys.iter().enumerate() {
        println!("Inserting: {:?}", key);
        let result = ds.insert(key, i as u32);
        assert!(result.is_none());
    }

    println!("Data structure: {:?}", ds);

    for (i, key) in keys.iter().enumerate() {
        println!("Deleting: {:?}", key);
        let result = ds.delete(key);
        assert_eq!(result, Some(i as u32));
    }

    let min_node = ds.minimum();
    assert!(min_node.is_none());
}

#[test]
fn lib_art_insert_debug() {
    let mut ds = ArtTree::new();
    let keys: Vec<_> = (0..16u32)
        .map(|i| 100 * i)
        .map(|i| [(i % 10) as u8, (i % 20) as u8, (i % 50) as u8, (i % 256) as u8])
        .collect();
    for (i, key) in keys.iter().enumerate() {
        println!("Inserting: {:?}", key);
        let result = ds.insert(key, i as u32);
        assert!(result.is_none());
    }

    println!("(Partial) Data structure: {:?}", ds);

    let breaking_key = lib_make_interesting_key(1600);
    println!("Inserting: {:?}", breaking_key);
    let _result = ds.insert(breaking_key.as_ref(), 10u32);

    println!("(End) Data structure: {:?}", ds);
}

fn lib_make_interesting_key(i: u32) -> Box<[u8; 4]> {
    Box::new([(i % 10) as u8, (i % 20) as u8, (i % 50) as u8, (i % 256) as u8])
}

#[test]
fn u64_mapping_and_reverse_mapping_test() {
    let u64key = 123456u64;
    assert_eq!(u64key, u8_list_to_u64_key(&u64key.to_be_bytes().into()));
}
