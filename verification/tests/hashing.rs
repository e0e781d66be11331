use iot_structures::hashing::{adler32, hashcode, LocationInformation};
use iot_structures::map::LocationCache;

fn new_location_info(name: &str) -> LocationInformation {
    LocationInformation {
        name: name.to_owned(),
        opened: "2018".to_owned(),
        address: "1 Curved Way, 10223 Someplace".to_owned(),
        security_group_name: format!("{}-sec", name),
    }
}

#[test]
fn hashcode_test() {
    let payload = "hello".to_string();
    assert_eq!(hashcode(payload.as_bytes()), 3535);
    assert_eq!(hashcode("".to_owned().as_bytes()), 0);
    assert_eq!(hashcode("ÄZZZZZZZZZZZ".to_owned().as_bytes()), 25652682);
}

#[test]
fn adler32_test() {
    let payload = "hello".to_owned().into_bytes();
    assert_eq!(adler32(&payload), 103547413);
    assert_eq!(adler32(&"".to_owned().into_bytes()), 1);
    assert_eq!(adler32(&"ÄZZZZZZZZZZZ".to_owned().into_bytes()), 660079910);
}

#[test]
fn checksums_of_single_bytes() {
    assert_eq!(adler32(&[0]), (1 << 16) | 1);
    assert_eq!(adler32(&[255]), (256 << 16) | 256);
    assert_eq!(adler32(&[1, 2]), ((2 + 4) << 16) | 4);
    assert_eq!(hashcode(&[7]), 7);
    assert_eq!(hashcode(&[1, 1]), 0);
    assert_eq!(hashcode(&[1, 0]), 2);
    assert_eq!(hashcode(&[0, 0, 0, 1]), 8);
    // 70000 bytes of 255: the sums wrap around the modulus
    let long = vec![255u8; 70000];
    let a = (1 + 70000u64 * 255) % 65521;
    let b = (70000u64 + 255 * (70000u64 * 70001 / 2)) % 65521;
    assert_eq!(adler32(&long) as u64, (b << 16) | a);
}

#[test]
fn hash_map_insert() {
    let mut m = LocationCache::new(Box::new(|e: &String| e.len()), 3);
    let val = vec![
        (
            "BlackRockSpire".to_owned(),
            new_location_info("BlackRockSpire"),
        ),
        ("MoltenCore".to_owned(), new_location_info("MoltenCore")),
        (
            "RagefireChasm".to_owned(),
            new_location_info("RagefireChasm"),
        ),
    ];

    m.insert(val[0].0.clone(), val[0].1.clone());
    m.insert(val[1].0.clone(), val[1].1.clone());
    m.insert(val[2].0.clone(), val[2].1.clone());

    assert_eq!(m.length, val.len());
}

#[test]
fn hash_map_remove() {
    let mut m = LocationCache::new(Box::new(|e: &String| e.len()), 3);
    let val = vec![
        (
            "BlackRockSpire".to_owned(),
            new_location_info("BlackRockSpire"),
        ),
        ("MoltenCore".to_owned(), new_location_info("MoltenCore")),
        (
            "RagefireChasm".to_owned(),
            new_location_info("RagefireChasm"),
        ),
    ];

    m.insert(val[0].0.clone(), val[0].1.clone());
    m.insert(val[1].0.clone(), val[1].1.clone());
    m.insert(val[2].0.clone(), val[2].1.clone());

    assert_eq!(m.length, val.len());

    assert_eq!(m.remove(val[0].0.clone()), Some(val[0].1.clone()));
    assert_eq!(m.remove(val[1].0.clone()), Some(val[1].1.clone()));
    assert_eq!(m.length, 1);
}

#[test]
fn hash_map_get() {
    let mut m = LocationCache::new(Box::new(|e: &String| e.len()), 3);
    let val = vec![
        (
            "BlackRockSpire".to_owned(),
            new_location_info("BlackRockSpire"),
        ),
        ("MoltenCore".to_owned(), new_location_info("MoltenCore")),
        (
            "RagefireChasm".to_owned(),
            new_location_info("RagefireChasm"),
        ),
    ];

    m.insert(val[0].0.clone(), val[0].1.clone());
    m.insert(val[1].0.clone(), val[1].1.clone());
    m.insert(val[2].0.clone(), val[2].1.clone());

    assert_eq!(m.length, val.len());

    assert_eq!(m.get(&val[0].0), Some(val[0].1.clone()));
    assert_eq!(m.get(&val[1].0), Some(val[1].1.clone()));
    assert_eq!(m.length, val.len());
}

#[test]
fn hash_map_replaces_and_forgets() {
    let mut m = LocationCache::new(Box::new(|e: &String| adler32(e.as_bytes()) as usize), 8);
    assert_eq!(m.get(&"a".to_owned()), None);
    assert_eq!(m.remove("a".to_owned()), None);
    m.insert("a".to_owned(), new_location_info("first"));
    m.insert("b".to_owned(), new_location_info("other"));
    m.insert("a".to_owned(), new_location_info("second"));
    assert_eq!(m.length, 2);
    assert_eq!(m.get(&"a".to_owned()), Some(new_location_info("second")));
    assert_eq!(m.get(&"b".to_owned()), Some(new_location_info("other")));
    assert_eq!(m.remove("a".to_owned()), Some(new_location_info("second")));
    assert_eq!(m.get(&"a".to_owned()), None);
    assert_eq!(m.remove("a".to_owned()), None);
    assert_eq!(m.length, 1);
    // one bucket for all keys
    let mut one = LocationCache::new(Box::new(|e: &String| hashcode(e.as_bytes()) as usize), 1);
    for k in ["x", "y", "z"] {
        one.insert(k.to_owned(), new_location_info(k));
    }
    assert_eq!(one.length, 3);
    assert_eq!(one.get(&"y".to_owned()), Some(new_location_info("y")));
    assert_eq!(one.get(&"w".to_owned()), None);
}

#[test]
fn location_equality() {
    let a = new_location_info("a");
    assert!(a == a.clone());
    assert!(a != new_location_info("b"));
    let mut moved = a.clone();
    moved.address = "elsewhere".to_owned();
    assert!(a != moved);
}

#[test]
fn hash_map_counts_what_it_holds() {
    let mut m = LocationCache::new(Box::new(|e: &String| e.len()), 4);
    assert_eq!(m.len(), 0);
    assert_eq!(m.remove("nowhere".to_owned()), None);
    assert_eq!(m.len(), 0);
    m.insert("a".to_owned(), new_location_info("a"));
    m.insert("bb".to_owned(), new_location_info("bb"));
    m.insert("a".to_owned(), new_location_info("other"));
    assert_eq!(m.len(), 2);
    assert_eq!(m.remove("a".to_owned()), Some(new_location_info("other")));
    assert_eq!(m.len(), 1);
    assert_eq!(m.remove("a".to_owned()), None);
    assert_eq!(m.len(), 1);
    assert_eq!(m.get(&"bb".to_owned()), Some(new_location_info("bb")));
    assert_eq!(m.length, m.len());
}
