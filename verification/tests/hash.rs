use scientific::Scientific;
use std::collections::hash_map::DefaultHasher;
use std::hash::{Hash, Hasher};

fn ph(s: &str) -> Scientific {
    Scientific::from_string(s.to_string()).unwrap()
}

fn hash_one<T: Hash>(x: &T) -> u64 {
    let mut hasher = DefaultHasher::new();
    x.hash(&mut hasher);
    hasher.finish()
}

#[test]
fn hash() {
    let numbers = [ph("0"), ph("1"), ph("100"), ph("1e2")];

    for a in &numbers {
        for b in &numbers {
            if a == b {
                assert_eq!(hash_one(&a), hash_one(&b));
            }
        }
    }
}
