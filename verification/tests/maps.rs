use delink::addr_map::AddrMap;
use delink::report::{Row, SymtabInfo};
use delink::sorting::sort_stably;
use delink::text_map::TextMap;

fn info(addr: u64) -> SymtabInfo {
    SymtabInfo {
        addr,
        size: 0,
        n_type: 0,
        n_sect: 0,
        n_desc: 0,
        external: false,
        private_external: false,
    }
}

#[test]
fn values_are_read_back_by_address() {
    let mut map: AddrMap<SymtabInfo> = AddrMap::new();
    for key in [5, 1, 9, 5, 0, u64::MAX] {
        map.insert(key, info(key));
    }
    map.insert(9, info(90));
    let keys: Vec<u64> = map.entries.iter().map(|(key, _)| *key).collect();
    assert_eq!(keys, vec![0, 1, 5, 9, u64::MAX]);
    assert_eq!(map.get(9).unwrap().addr, 90);
    assert_eq!(map.get(5).unwrap().addr, 5);
    assert!(map.get(4).is_none());
    assert_eq!(map.lower(5), 2);
    assert_eq!(map.upper(5), 3);
}

#[test]
fn values_are_read_back_by_name() {
    let mut map: TextMap<SymtabInfo> = TextMap::new();
    for (n, name) in ["b", "a", "ab", "", "ä", "b"].iter().enumerate() {
        map.insert(name.to_string(), info(n as u64));
    }
    let names: Vec<&str> = map.entries.iter().map(|(name, _)| name.as_str()).collect();
    assert_eq!(names, vec!["", "a", "ab", "b", "ä"]);
    assert_eq!(map.get("b").unwrap().addr, 5);
    assert_eq!(map.get("ab").unwrap().addr, 2);
    assert!(map.get("c").is_none());
}

#[test]
fn sorting_keeps_the_order_of_equal_keys() {
    let row = |bytes: u64, name: &str| Row {
        bytes,
        functions: 0,
        name: name.into(),
    };
    let sorted = sort_stably(vec![row(2, "a"), row(1, "b"), row(2, "c"), row(1, "d")]);
    let names: Vec<&str> = sorted.iter().map(|r| r.name.as_str()).collect();
    assert_eq!(names, vec!["b", "d", "a", "c"]);
}
