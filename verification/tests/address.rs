use yggdrasil::address::{addr_for_key, subnet_for_key, Address, Subnet, SubnetTransform};
use yggdrasil::blooms::KeyTransform;

const KEY: [u8; 32] = [
    189, 186, 207, 216, 34, 64, 222, 61, 205, 18, 57, 36, 203, 181, 82, 86, 251, 141, 171, 8, 170,
    152, 227, 5, 82, 138, 184, 79, 65, 158, 110, 251,
];

#[test]
fn the_address_of_a_key() {
    assert_eq!(
        addr_for_key(&KEY).0,
        [2, 0, 132, 138, 96, 79, 187, 126, 67, 132, 101, 219, 141, 182, 104, 149]
    );
    assert_eq!(subnet_for_key(&KEY).0, [3, 0, 132, 138, 96, 79, 187, 126]);
}

#[test]
fn the_key_of_an_address_starts_alike() {
    let key = addr_for_key(&KEY).get_key();
    assert_eq!(key[..14], KEY[..14]);
    assert_eq!(key[15..], [255; 17]);
    let key = subnet_for_key(&KEY).get_key();
    assert_eq!(key[..6], KEY[..6]);
    assert_eq!(key[7..], [255; 25]);
    assert_eq!(Address([2; 16]).get_key()[0], 0x3f);
    assert_eq!(Subnet([3; 8]).get_key()[0], 0x1f);
}

#[test]
fn zeros_in_front_are_counted() {
    let mut key = [0xffu8; 32];
    key[0] = 0;
    key[1] = 0x0f;
    let addr = addr_for_key(&key);
    assert_eq!(addr.0[..2], [2, 12]);
    assert_eq!(addr.0[2..], [0; 14]);
}

#[test]
fn nodes_are_looked_up_by_their_network() {
    let t = SubnetTransform;
    let looked_up = t.apply(&KEY);
    assert_eq!(subnet_for_key(&looked_up).0, subnet_for_key(&KEY).0);
    assert_eq!(t.apply(&looked_up), looked_up);
    let mut other = KEY;
    other[31] ^= 1;
    assert_eq!(t.apply(&other), looked_up);
    other[0] ^= 1;
    assert_ne!(t.apply(&other), looked_up);
}
