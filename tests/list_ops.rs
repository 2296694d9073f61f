use cmap::bitmap::{hamming_distance, Distance};
use cmap::list::{get_from_list, remove_from_list, update_into_list, Item};

#[test]
fn test_list_operation() {
    let mut items: Vec<Item<u64>> = vec![
        Item {
            key: 20,
            value: 200,
        },
        Item {
            key: 10,
            value: 100,
        },
        Item {
            key: 50,
            value: 500,
        },
        Item {
            key: 30,
            value: 300,
        },
    ];

    assert_eq!(update_into_list(10, &1000, &mut items), Some(100));
    assert_eq!(update_into_list(10, &10000, &mut items), Some(1000));
    assert_eq!(update_into_list(60, &600, &mut items), None);

    let (items, item) = remove_from_list(20, &items).unwrap();
    assert_eq!(item, 200);
    let (items, item) = remove_from_list(60, &items).unwrap();
    assert_eq!(item, 600);
    assert_eq!(remove_from_list(20, &items), None);
    assert_eq!(remove_from_list(60, &items), None);

    assert_eq!(get_from_list(10, &items), Some(10000));
    assert_eq!(get_from_list(50, &items), Some(500));
    assert_eq!(get_from_list(30, &items), Some(300));
    assert_eq!(get_from_list(20, &items), None);

    assert_eq!(
        items,
        vec![
            Item {
                key: 10,
                value: 10000,
            },
            Item {
                key: 50,
                value: 500,
            },
            Item {
                key: 30,
                value: 300,
            },
        ]
    );
}

#[test]
fn test_hamming_distance() {
    let bmp = 0xaaaa;
    for w in 0..=255 {
        let o = ((w % 128) / 2) as usize;
        let dist = hamming_distance(w, bmp.clone());
        match w % 2 {
            0 if w < 128 => assert_eq!(dist, Distance::Insert(o)),
            0 => assert_eq!(dist, Distance::Insert(64 + o)),
            1 if w < 128 => assert_eq!(dist, Distance::Found(o)),
            1 => assert_eq!(dist, Distance::Found(64 + o)),
            _ => unreachable!(),
        }
    }

    let bmp = 0x5555;
    for w in 0..=255 {
        let o = ((w % 128) / 2) as usize;
        let dist = hamming_distance(w, bmp.clone());
        match w % 2 {
            0 if w < 128 => assert_eq!(dist, Distance::Found(o)),
            0 => assert_eq!(dist, Distance::Found(64 + o)),
            1 if w < 128 => assert_eq!(dist, Distance::Insert(o + 1)),
            1 => assert_eq!(dist, Distance::Insert(64 + o + 1)),
            _ => unreachable!(),
        }
    }
}

#[test]
fn hamming_distance_on_sixteen_slots() {
    assert_eq!(hamming_distance(0, 0xaaaa), Distance::Insert(0));
    assert_eq!(hamming_distance(1, 0xaaaa), Distance::Found(0));
    assert_eq!(hamming_distance(3, 0x5555), Distance::Insert(2));
    assert_eq!(hamming_distance(15, 0xffff), Distance::Found(15));
    assert_eq!(hamming_distance(7, 0), Distance::Insert(0));
    assert_eq!(hamming_distance(9, 0b10_0000_0001), Distance::Found(1));
}

#[test]
fn list_bucket_update_then_get() {
    let mut items: Vec<Item<u64>> = Vec::new();
    assert_eq!(update_into_list(10, &100, &mut items), None);
    assert_eq!(update_into_list(20, &200, &mut items), None);
    assert_eq!(update_into_list(30, &300, &mut items), None);
    assert_eq!(update_into_list(50, &500, &mut items), None);
    assert_eq!(update_into_list(10, &1000, &mut items), Some(100));
    assert_eq!(get_from_list(10, &items), Some(1000));
    assert_eq!(items.len(), 4);
}

#[test]
fn list_remove_keeps_order_and_input() {
    let items: Vec<Item<u64>> = vec![
        Item { key: 1, value: 11 },
        Item { key: 2, value: 22 },
        Item { key: 3, value: 33 },
    ];
    let (rest, v) = remove_from_list(2, &items).unwrap();
    assert_eq!(v, 22);
    assert_eq!(rest, vec![Item { key: 1, value: 11 }, Item { key: 3, value: 33 }]);
    assert_eq!(items.len(), 3);
    assert_eq!(remove_from_list(9, &items), None);
    let empty: Vec<Item<u64>> = Vec::new();
    assert_eq!(get_from_list(1, &empty), None);
    assert_eq!(remove_from_list(1, &empty), None);
}
