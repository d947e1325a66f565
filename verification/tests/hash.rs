use shovel_stb::stb_hash;

#[test]
fn tests_hash_known_values() {
    assert_eq!(stb_hash("ID"), 0x9911DB53);
    assert_eq!(stb_hash("Name"), 0xE8DF52FD);
    assert_eq!(stb_hash("0"), 0x3180D09D);
    assert_eq!(stb_hash("1"), 0xD0F4B96D);
    assert_eq!(stb_hash("Health"), 0xCFEB08E0);
    assert_eq!(stb_hash("8"), 0xE55C1F50);
    assert_eq!(stb_hash("Shovel Knight"), 0x33D927A0);
}

#[test]
fn hash_hash_known_values() {
    assert_eq!(stb_hash("ID"), 0x9911DB53);
    assert_eq!(stb_hash("Name"), 0xE8DF52FD);
    assert_eq!(stb_hash("0"), 0x3180D09D);
    assert_eq!(stb_hash("1"), 0xD0F4B96D);
    assert_eq!(stb_hash("Health"), 0xCFEB08E0);
    assert_eq!(stb_hash("8"), 0xE55C1F50);
    assert_eq!(stb_hash("Shovel Knight"), 0x33D927A0);
}

#[test]
fn hash_of_empty_string_is_zero() {
    assert_eq!(stb_hash(""), 0);
}

#[test]
fn hash_depends_on_every_byte_of_long_keys() {
    // Keys longer than one 12-byte block exercise the mixing rounds.
    let a = stb_hash("ABCDEFGHIJKLMNOPQRSTUVWXYZ");
    let b = stb_hash("ABCDEFGHIJKLMNOPQRSTUVWXYz");
    assert_ne!(a, b);
    assert_eq!(a, stb_hash("ABCDEFGHIJKLMNOPQRSTUVWXYZ"));
}
